use sv39_mm::mm::sv39::page_table_entry::{Flags, PTE};
use sv39_mm::mm::{Frame, MAX_FRAME};

#[test]
fn flags_have_one_bit_each() {
    assert_eq!(Flags::empty().bits(), 0);
    assert_eq!(Flags::v().bits(), 1 << 0);
    assert_eq!(Flags::r().bits(), 1 << 1);
    assert_eq!(Flags::w().bits(), 1 << 2);
    assert_eq!(Flags::x().bits(), 1 << 3);
    assert_eq!(Flags::u().bits(), 1 << 4);
    assert_eq!(Flags::g().bits(), 1 << 5);
    assert_eq!(Flags::a().bits(), 1 << 6);
    assert_eq!(Flags::d().bits(), 1 << 7);
}

#[test]
fn flags_union_and_contains() {
    let rw = Flags::r().union(Flags::w());
    assert_eq!(rw, Flags::from_bits(6));
    assert!(rw.contains(Flags::r()));
    assert!(rw.contains(Flags::w()));
    assert!(rw.contains(rw));
    assert!(rw.contains(Flags::empty()));
    assert!(!rw.contains(Flags::x()));
    assert!(!rw.contains(Flags::r().union(Flags::x())));
}

#[test]
fn entry_has_the_fixed_layout() {
    let pte = PTE::new(Frame(0x80200), Flags::v().union(Flags::r()).union(Flags::w()));
    assert_eq!(pte, PTE((0x80200 << 10) | 0b111));
    assert!(pte.is_valid());
    assert_eq!(pte.ppn(), Frame(0x80200));
    assert_eq!(pte.flags(), Flags::from_bits(7));
}

#[test]
fn entry_without_valid_flag_is_not_valid() {
    let pte = PTE::new(Frame(0x1234), Flags::r().union(Flags::x()));
    assert!(!pte.is_valid());
    assert_eq!(pte.ppn(), Frame(0x1234));
    assert_eq!(pte.flags(), Flags::from_bits(0b1010));
    assert!(!PTE(0).is_valid());
    assert_eq!(PTE(0).ppn(), Frame(0));
}

#[test]
fn entry_keeps_forty_four_bits_of_the_frame() {
    let pte = PTE::new(Frame(MAX_FRAME), Flags::v());
    assert_eq!(pte, PTE((MAX_FRAME << 10) | 1));
    assert_eq!(pte.ppn(), Frame(MAX_FRAME));
    let wide = PTE::new(Frame((1 << 44) | 5), Flags::v());
    assert_eq!(wide.ppn(), Frame(5));
    assert_eq!(wide, PTE((5 << 10) | 1));
}

#[test]
fn entry_carries_accessed_and_dirty_untouched() {
    let all = Flags::from_bits(0xff);
    let pte = PTE::new(Frame(1), all);
    assert_eq!(pte, PTE(0x4ff));
    assert_eq!(pte.flags(), all);
    assert!(pte.flags().contains(Flags::a().union(Flags::d())));
}

#[test]
fn decoding_ignores_the_bits_above_the_frame() {
    let pte = PTE(u64::MAX);
    assert_eq!(pte.ppn(), Frame(MAX_FRAME));
    assert_eq!(pte.flags(), Flags::from_bits(0xff));
    assert!(pte.is_valid());
}
