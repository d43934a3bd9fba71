//! Virtual-memory core for a three-level (Sv39) paging scheme: typed
//! addresses, a physical-frame allocator, the page-table-entry encoding and
//! the page-table engine, each with a machine-checked contract.

pub mod kernel;
pub mod mm;

