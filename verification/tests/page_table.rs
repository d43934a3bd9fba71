use sv39_mm::mm::frame_allocator::FrameAllocator;
use sv39_mm::mm::memory::PhysicalMemory;
use sv39_mm::mm::sv39::page_table::{
    LevelPageTable, MapBlock, MapType, PageTableError, RootPageTable, SatpToken,
};
use sv39_mm::mm::sv39::page_table_entry::{Flags, PTE};
use sv39_mm::mm::{Frame, PhysicalAddress, VirtualPageNumber};

fn pool(pages: u64) -> FrameAllocator {
    FrameAllocator::new(0x8020_0000, 0x8020_0000 + pages * 4096, 0x8020_0000)
        .unwrap_or_else(|_| panic!("refused"))
}

fn root(allocator: &mut FrameAllocator, mem: &mut PhysicalMemory) -> RootPageTable {
    RootPageTable::new(allocator, mem).unwrap_or_else(|_| panic!("no frame"))
}

fn sorted(mut frames: Vec<Frame>) -> Vec<Frame> {
    frames.sort();
    frames
}

fn rw() -> Flags {
    Flags::r().union(Flags::w())
}

#[test]
fn root_takes_the_first_frame() {
    let mut a = pool(16);
    let mut mem = PhysicalMemory::new();
    let rpt = root(&mut a, &mut mem);
    assert_eq!(rpt.address, PhysicalAddress(0x8020_0000));
    assert_eq!(a.allocate(), Some(Frame(0x80201)));
}

#[test]
fn root_needs_a_frame() {
    let mut a = pool(1);
    let mut mem = PhysicalMemory::new();
    assert_eq!(a.allocate(), Some(Frame(0x80200)));
    assert!(matches!(
        RootPageTable::new(&mut a, &mut mem),
        Err(PageTableError::NoMorePhysical)
    ));
}

#[test]
fn root_table_is_cleared() {
    let mut a = pool(16);
    let mut mem = PhysicalMemory::new();
    mem.write(Frame(0x80200), 2, PTE::new(Frame(0x99), Flags::v()));
    let rpt = root(&mut a, &mut mem);
    assert_eq!(mem.read(Frame(0x80200), 2), PTE(0));
    assert_eq!(rpt.lookup(&mem, VirtualPageNumber(0x80000)), None);
}

#[test]
fn token_encodes_mode_and_root_frame() {
    let mut a = pool(16);
    let mut mem = PhysicalMemory::new();
    let rpt = root(&mut a, &mut mem);
    assert_eq!(rpt.satp_token(), SatpToken((8u64 << 60) | 0x80200));
    assert_eq!(rpt.satp_token().value(), 0x8000_0000_0008_0200);
    assert_eq!(u64::from(rpt.satp_token()), 0x8000_0000_0008_0200);
}

#[test]
fn explicit_mapping_round_trip() {
    let mut a = pool(16);
    let mut mem = PhysicalMemory::new();
    let mut rpt = root(&mut a, &mut mem);
    let f = a.allocate().unwrap();
    let block = MapBlock::new(0x12345, MapType::UseFrame(f), rw());
    assert_eq!(rpt.map(&mut a, &mut mem, block), Ok(()));
    let pte = rpt.lookup(&mem, VirtualPageNumber(0x12345)).unwrap();
    assert_eq!(pte.ppn(), f);
    assert_eq!(pte.flags(), Flags::from_bits(0b111));
    assert!(pte.is_valid());
    assert_eq!(rpt.lookup(&mem, VirtualPageNumber(0x12346)), None);
}

#[test]
fn identity_mapping_points_at_its_own_number() {
    let mut a = pool(16);
    let mut mem = PhysicalMemory::new();
    let mut rpt = root(&mut a, &mut mem);
    let block = MapBlock::new(0x80000, MapType::Identical, Flags::r().union(Flags::x()));
    assert_eq!(rpt.map(&mut a, &mut mem, block), Ok(()));
    let pte = rpt.lookup(&mem, VirtualPageNumber(0x80000)).unwrap();
    assert_eq!(pte, PTE((0x80000 << 10) | 0b1011));
    assert_eq!(pte.ppn(), Frame(0x80000));
}

#[test]
fn map_builds_the_tables_on_the_way() {
    let mut a = pool(16);
    let mut mem = PhysicalMemory::new();
    let mut rpt = root(&mut a, &mut mem);
    let block = MapBlock::new((3 << 18) | (4 << 9) | 5, MapType::Identical, rw());
    assert_eq!(rpt.map(&mut a, &mut mem, block), Ok(()));
    assert_eq!(mem.read(Frame(0x80200), 3), PTE((0x80201 << 10) | 1));
    assert_eq!(mem.read(Frame(0x80201), 4), PTE((0x80202 << 10) | 1));
    assert_eq!(
        mem.read(Frame(0x80202), 5),
        PTE(((((3 << 18) | (4 << 9) | 5) as u64) << 10) | 0b111)
    );
    assert_eq!(a.allocate(), Some(Frame(0x80203)));
}

#[test]
fn neighbouring_pages_share_their_tables() {
    let mut a = pool(16);
    let mut mem = PhysicalMemory::new();
    let mut rpt = root(&mut a, &mut mem);
    for vpn in 0x80000..0x80010u64 {
        let block = MapBlock::new(vpn, MapType::Identical, rw());
        assert_eq!(rpt.map(&mut a, &mut mem, block), Ok(()));
    }
    for vpn in 0x80000..0x80010u64 {
        let pte = rpt.lookup(&mem, VirtualPageNumber(vpn)).unwrap();
        assert_eq!(pte.ppn(), Frame(vpn));
    }
    assert_eq!(a.allocate(), Some(Frame(0x80203)));
}

#[test]
fn map_refuses_a_page_outside_the_envelope() {
    let mut a = pool(16);
    let mut mem = PhysicalMemory::new();
    let mut rpt = root(&mut a, &mut mem);
    let block = MapBlock::new(1 << 27, MapType::Identical, rw());
    assert_eq!(
        rpt.map(&mut a, &mut mem, block),
        Err(PageTableError::InvalidVPN(1 << 27))
    );
    assert_eq!(a.allocate(), Some(Frame(0x80201)));
    assert_eq!(rpt.lookup(&mem, VirtualPageNumber(1 << 27)), None);
}

#[test]
fn map_reports_exhaustion_at_the_first_table() {
    let mut a = pool(1);
    let mut mem = PhysicalMemory::new();
    let mut rpt = root(&mut a, &mut mem);
    let block = MapBlock::new(0x80000, MapType::Identical, rw());
    assert_eq!(
        rpt.map(&mut a, &mut mem, block),
        Err(PageTableError::NoMorePhysical)
    );
    assert_eq!(rpt.release(&mut a), vec![Frame(0x80200)]);
}

#[test]
fn map_reports_exhaustion_at_the_second_table() {
    let mut a = pool(2);
    let mut mem = PhysicalMemory::new();
    let mut rpt = root(&mut a, &mut mem);
    let block = MapBlock::new(0x80000, MapType::Identical, rw());
    assert_eq!(
        rpt.map(&mut a, &mut mem, block),
        Err(PageTableError::NoMorePhysical)
    );
    assert_eq!(rpt.lookup(&mem, VirtualPageNumber(0x80000)), None);
    assert_eq!(
        sorted(rpt.release(&mut a)),
        vec![Frame(0x80200), Frame(0x80201)]
    );
}

#[test]
fn remap_releases_the_displaced_frame() {
    let mut a = pool(16);
    let mut mem = PhysicalMemory::new();
    let mut rpt = root(&mut a, &mut mem);
    let f1 = a.allocate().unwrap();
    let f2 = a.allocate().unwrap();
    let first = MapBlock::new(0x4_0000, MapType::UseFrame(f1), rw());
    assert_eq!(rpt.map(&mut a, &mut mem, first), Ok(()));
    let second = MapBlock::new(0x4_0000, MapType::UseFrame(f2), Flags::r());
    assert_eq!(rpt.map(&mut a, &mut mem, second), Ok(()));
    let pte = rpt.lookup(&mem, VirtualPageNumber(0x4_0000)).unwrap();
    assert_eq!(pte.ppn(), f2);
    assert_eq!(pte.flags(), Flags::from_bits(0b11));
    assert_eq!(a.allocate(), Some(f1));
    assert_eq!(a.allocate(), Some(Frame(0x80205)));
}

#[test]
fn teardown_returns_root_and_tables_of_identity_mappings() {
    let mut a = pool(16);
    let mut mem = PhysicalMemory::new();
    let mut rpt = root(&mut a, &mut mem);
    let pages: [u64; 4] = [0x80000, 0x80001, 0x80200, 0x4_0000];
    for vpn in pages {
        let block = MapBlock::new(vpn, MapType::Identical, rw());
        assert_eq!(rpt.map(&mut a, &mut mem, block), Ok(()));
    }
    let freed = sorted(rpt.release(&mut a));
    assert_eq!(
        freed,
        vec![
            Frame(0x80200),
            Frame(0x80201),
            Frame(0x80202),
            Frame(0x80203),
            Frame(0x80204),
            Frame(0x80205),
        ]
    );
    let mut back: Vec<Frame> = Vec::new();
    for _ in 0..6 {
        back.push(a.allocate().unwrap());
    }
    assert_eq!(sorted(back), freed);
    assert_eq!(a.allocate(), Some(Frame(0x80206)));
}

#[test]
fn teardown_returns_explicit_targets_once() {
    let mut a = pool(16);
    let mut mem = PhysicalMemory::new();
    let mut rpt = root(&mut a, &mut mem);
    let f = a.allocate().unwrap();
    for _ in 0..2 {
        let block = MapBlock::new(7, MapType::UseFrame(f), rw());
        assert_eq!(rpt.map(&mut a, &mut mem, block), Ok(()));
    }
    let freed = sorted(rpt.release(&mut a));
    assert_eq!(
        freed,
        vec![Frame(0x80200), Frame(0x80201), Frame(0x80202), Frame(0x80203)]
    );
}

#[test]
fn teardown_of_a_fresh_root_returns_the_root() {
    let mut a = pool(4);
    let mut mem = PhysicalMemory::new();
    let rpt = root(&mut a, &mut mem);
    assert_eq!(rpt.release(&mut a), vec![Frame(0x80200)]);
    assert_eq!(a.allocate(), Some(Frame(0x80200)));
    assert_eq!(a.allocate(), Some(Frame(0x80201)));
}

#[test]
fn recycled_table_frames_are_cleared() {
    let mut a = pool(16);
    let mut mem = PhysicalMemory::new();
    let mut rpt = root(&mut a, &mut mem);
    let block = MapBlock::new(0x80000, MapType::Identical, rw());
    assert_eq!(rpt.map(&mut a, &mut mem, block), Ok(()));
    rpt.release(&mut a);
    let mut again = root(&mut a, &mut mem);
    assert_eq!(again.lookup(&mem, VirtualPageNumber(0x80000)), None);
    let other = MapBlock::new(0x80001, MapType::Identical, rw());
    assert_eq!(again.map(&mut a, &mut mem, other), Ok(()));
    assert_eq!(again.lookup(&mem, VirtualPageNumber(0x80000)), None);
    assert!(again.lookup(&mem, VirtualPageNumber(0x80001)).is_some());
}

#[test]
fn level_table_get_sees_valid_entries_only() {
    let mut mem = PhysicalMemory::new();
    let table = LevelPageTable::new(PhysicalAddress(0x5000));
    assert_eq!(table.get(&mem, 9), None);
    mem.write(Frame(5), 9, PTE::new(Frame(0x77), Flags::v()));
    mem.write(Frame(5), 10, PTE::new(Frame(0x78), Flags::r()));
    assert_eq!(table.get(&mem, 9), Some(Frame(0x77)));
    assert_eq!(table.get(&mem, 10), None);
}

#[test]
fn level_table_get_or_create_makes_one_table() {
    let mut a = pool(2);
    let mut mem = PhysicalMemory::new();
    let table = LevelPageTable::new(PhysicalAddress(0x5000));
    assert_eq!(table.get_or_create(&mut mem, &mut a, 1), Ok(Frame(0x80200)));
    assert_eq!(mem.read(Frame(5), 1), PTE((0x80200 << 10) | 1));
    assert_eq!(table.get_or_create(&mut mem, &mut a, 1), Ok(Frame(0x80200)));
    assert_eq!(table.get_or_create(&mut mem, &mut a, 2), Ok(Frame(0x80201)));
    assert_eq!(
        table.get_or_create(&mut mem, &mut a, 3),
        Err(PageTableError::NoMorePhysical)
    );
    assert_eq!(mem.read(Frame(5), 3), PTE(0));
}

#[test]
fn level_table_replace_hands_back_the_old_entry() {
    let mut mem = PhysicalMemory::new();
    let table = LevelPageTable::new(PhysicalAddress(0x5000));
    assert_eq!(table.replace(&mut mem, 511, PTE(0xabc)), PTE(0));
    assert_eq!(table.replace(&mut mem, 511, PTE(0xdef)), PTE(0xabc));
    let ptes = table.ptes(&mem);
    assert_eq!(ptes.len(), 512);
    assert_eq!(ptes[511], PTE(0xdef));
    assert_eq!(ptes[0], PTE(0));
}

#[test]
fn memory_reads_zero_until_written() {
    let mut mem = PhysicalMemory::new();
    assert_eq!(mem.read(Frame(1), 0), PTE(0));
    assert_eq!(mem.table(Frame(1)), vec![PTE(0); 512]);
    mem.write(Frame(1), 3, PTE(42));
    assert_eq!(mem.read(Frame(1), 3), PTE(42));
    assert_eq!(mem.read(Frame(1), 4), PTE(0));
    assert_eq!(mem.read(Frame(2), 3), PTE(0));
    mem.zero(Frame(1));
    assert_eq!(mem.read(Frame(1), 3), PTE(0));
}

#[test]
fn map_block_keeps_its_request() {
    let block = MapBlock::new(0x42, MapType::UseFrame(Frame(9)), Flags::x());
    assert_eq!(block.vpn, VirtualPageNumber(0x42));
    assert_eq!(block.map_type, MapType::UseFrame(Frame(9)));
    assert_eq!(block.permission, Flags::x());
}

#[test]
fn teardown_after_remap_leaves_the_displaced_frame_alone() {
    let mut a = pool(16);
    let mut mem = PhysicalMemory::new();
    let mut rpt = root(&mut a, &mut mem);
    let f1 = a.allocate().unwrap();
    let f2 = a.allocate().unwrap();
    let first = MapBlock::new(0x4_0000, MapType::UseFrame(f1), rw());
    assert_eq!(rpt.map(&mut a, &mut mem, first), Ok(()));
    let second = MapBlock::new(0x4_0000, MapType::UseFrame(f2), rw());
    assert_eq!(rpt.map(&mut a, &mut mem, second), Ok(()));
    let freed = sorted(rpt.release(&mut a));
    assert!(!freed.contains(&f1));
    assert_eq!(
        freed,
        vec![Frame(0x80200), f2, Frame(0x80203), Frame(0x80204)]
    );
    let mut back: Vec<Frame> = Vec::new();
    while back.len() < 5 {
        back.push(a.allocate().unwrap());
    }
    assert_eq!(
        sorted(back),
        vec![Frame(0x80200), f1, f2, Frame(0x80203), Frame(0x80204)]
    );
    assert_eq!(a.allocate(), Some(Frame(0x80205)));
}

#[test]
fn displaced_identity_target_leaves_the_ledger_untouched() {
    let mut a = pool(16);
    let mut mem = PhysicalMemory::new();
    let mut rpt = root(&mut a, &mut mem);
    let f = a.allocate().unwrap();
    let first = MapBlock::new(9, MapType::UseFrame(f), rw());
    assert_eq!(rpt.map(&mut a, &mut mem, first), Ok(()));
    let second = MapBlock::new(9, MapType::Identical, rw());
    assert_eq!(rpt.map(&mut a, &mut mem, second), Ok(()));
    assert_eq!(a.allocate(), Some(f));
    assert_eq!(
        sorted(rpt.release(&mut a)),
        vec![Frame(0x80200), Frame(0x80202), Frame(0x80203)]
    );
}

#[test]
fn table_frames_lists_root_then_each_middle_with_its_leaves() {
    let mut a = pool(16);
    let mut mem = PhysicalMemory::new();
    let mut rpt = root(&mut a, &mut mem);
    assert_eq!(rpt.table_frames(&mem), vec![Frame(0x80200)]);
    let pages: [u64; 3] = [(1 << 18) | (2 << 9), 1 << 18, 5];
    for vpn in pages {
        let block = MapBlock::new(vpn, MapType::Identical, rw());
        assert_eq!(rpt.map(&mut a, &mut mem, block), Ok(()));
    }
    assert_eq!(
        rpt.table_frames(&mem),
        vec![
            Frame(0x80200),
            Frame(0x80204),
            Frame(0x80205),
            Frame(0x80201),
            Frame(0x80203),
            Frame(0x80202),
        ]
    );
}
