use sv39_mm::mm::sv39::page_table::PageTableError;
use sv39_mm::mm::{
    Frame, PhysicalAddress, VirtualAddress, VirtualPageNumber, MAX_FRAME, PAGE_OFFSET, PAGE_SIZE,
    PAGE_TABLE_LENGTH,
};

#[test]
fn constants_describe_sv39() {
    assert_eq!(PAGE_OFFSET, 12);
    assert_eq!(PAGE_SIZE, 4096);
    assert_eq!(PAGE_TABLE_LENGTH, 512);
    assert_eq!(MAX_FRAME, (1u64 << 44) - 1);
}

#[test]
fn vpn_splits_into_three_indices() {
    let vpns = VirtualPageNumber(0x0012_3456 & 0x7ff_ffff).vpns().unwrap();
    assert_eq!(vpns.get0(), 0x56);
    assert_eq!(vpns.get1(), 0x11a);
    assert_eq!(vpns.get2(), 0x4);
    assert_eq!((vpns.get2() << 18) | (vpns.get1() << 9) | vpns.get0(), 0x0012_3456);
}

#[test]
fn vpn_of_all_ones_has_three_full_indices() {
    let vpns = VirtualPageNumber((1 << 27) - 1).vpns().unwrap();
    assert_eq!((vpns.get2(), vpns.get1(), vpns.get0()), (511, 511, 511));
}

#[test]
fn vpn_zero_has_three_zero_indices() {
    let vpns = VirtualPageNumber(0).vpns().unwrap();
    assert_eq!((vpns.get2(), vpns.get1(), vpns.get0()), (0, 0, 0));
}

#[test]
fn vpn_outside_envelope_is_refused() {
    assert_eq!(
        VirtualPageNumber(1 << 27).vpns(),
        Err(PageTableError::InvalidVPN(1 << 27))
    );
    assert_eq!(
        VirtualPageNumber(u64::MAX).vpns(),
        Err(PageTableError::InvalidVPN(u64::MAX))
    );
}

#[test]
fn virtual_address_round_trip() {
    let samples: [u64; 6] = [
        0,
        0xfff,
        0x1000,
        0x8020_0abc,
        0x12_3456_7890,
        (1 << 39) - 1,
    ];
    for va in samples {
        let vpn = VirtualAddress(va).into_virtual_page_number();
        assert_eq!(vpn.value(), va >> 12);
        let vpns = VirtualAddress(va).vpns().unwrap();
        assert!(vpns.get0() < 512 && vpns.get1() < 512 && vpns.get2() < 512);
        assert_eq!(
            (vpns.get2() << 18) | (vpns.get1() << 9) | vpns.get0(),
            va >> 12
        );
    }
}

#[test]
fn virtual_address_outside_envelope_is_refused() {
    assert_eq!(
        VirtualAddress(1 << 39).vpns(),
        Err(PageTableError::InvalidVPN(1 << 27))
    );
}

#[test]
fn physical_address_drops_its_offset() {
    assert_eq!(PhysicalAddress(0x8020_0abc).into_frame(), Frame(0x80200));
    assert_eq!(Frame::from(PhysicalAddress(0x8020_0fff)), Frame(0x80200));
    assert_eq!(PhysicalAddress(0xfff).into_frame(), Frame(0));
}

#[test]
fn frame_base_is_page_aligned() {
    assert_eq!(Frame(0x80200).base(), PhysicalAddress(0x8020_0000));
    assert_eq!(PhysicalAddress::from(Frame(3)), PhysicalAddress(0x3000));
    assert_eq!(Frame(MAX_FRAME).base().into_frame(), Frame(MAX_FRAME));
    assert_eq!(Frame(MAX_FRAME + 2).base(), PhysicalAddress(0x1000));
}

#[test]
fn wrappers_convert_to_and_from_words() {
    assert_eq!(Frame::from(7u64), Frame(7));
    assert_eq!(u64::from(Frame(7)), 7);
    assert_eq!(u64::from(PhysicalAddress::from(9u64)), 9);
    assert_eq!(u64::from(VirtualAddress::from(11u64)), 11);
    assert_eq!(u64::from(VirtualPageNumber::from(13u64)), 13);
    assert_eq!(Frame(5).value(), 5);
    assert_eq!(PhysicalAddress(6).value(), 6);
    assert_eq!(VirtualAddress(8).value(), 8);
}

#[test]
fn frames_order_by_number() {
    assert!(Frame(1) < Frame(2));
    assert!(PhysicalAddress(0x1000) < PhysicalAddress(0x2000));
}
