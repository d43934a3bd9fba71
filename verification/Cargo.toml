[package]
name = "sv39_mm"
version = "0.1.0"
edition = "2021"
publish = false

[dependencies]
hashbrown = "=0.17.1"
thiserror = "=2.0.21"
riscv = "=0.16.1"
linked_list_allocator = "=0.10.6"
