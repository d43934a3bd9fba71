use sv39_mm::kernel::{Kernel, KernelError, KernelLayout, MEMORY_END};
use sv39_mm::mm::frame_allocator::{FrameAllocator, FrameError};
use sv39_mm::mm::memory::PhysicalMemory;
use sv39_mm::mm::sv39::page_table::{PageTableError, RootPageTable};
use sv39_mm::mm::sv39::page_table_entry::Flags;
use sv39_mm::mm::{Frame, VirtualPageNumber};

fn image() -> KernelLayout {
    KernelLayout {
        stext: 0x8020_0000,
        etext: 0x8020_3000,
        srodata: 0x8020_3000,
        erodata: 0x8020_4000,
        sdata: 0x8020_4000,
        edata: 0x8020_6000,
        sbss: 0x8020_6000,
        ebss: 0x8020_7800,
        ekernel: 0x8020_8000,
    }
}

fn error_of(r: Result<Kernel, KernelError>) -> Option<KernelError> {
    match r {
        Ok(_) => None,
        Err(e) => Some(e),
    }
}

fn flags_at(kernel: &Kernel, vpn: u64) -> Option<(Frame, Flags)> {
    kernel
        .page_table
        .lookup(&kernel.memory, VirtualPageNumber(vpn))
        .map(|pte| (pte.ppn(), pte.flags()))
}

#[test]
fn kernel_maps_its_image_onto_itself() {
    let layout = image();
    assert!(layout.is_wf());
    let kernel = Kernel::new(layout).unwrap_or_else(|e| panic!("{:?}", e));
    for vpn in 0x80200..0x80203u64 {
        assert_eq!(flags_at(&kernel, vpn), Some((Frame(vpn), Flags::from_bits(0b1011))));
    }
    assert_eq!(flags_at(&kernel, 0x80203), Some((Frame(0x80203), Flags::from_bits(0b0011))));
    for vpn in 0x80204..0x80207u64 {
        assert_eq!(flags_at(&kernel, vpn), Some((Frame(vpn), Flags::from_bits(0b0111))));
    }
    assert_eq!(flags_at(&kernel, 0x80207), None);
    assert_eq!(flags_at(&kernel, 0x801ff), None);
}

#[test]
fn kernel_takes_three_frames_for_a_small_image() {
    let mut kernel = Kernel::new(image()).unwrap_or_else(|e| panic!("{:?}", e));
    assert_eq!(kernel.satp_token().value(), (8u64 << 60) | 0x80208);
    assert_eq!(kernel.frame_alloc.allocate(), Some(Frame(0x8020b)));
    let mut freed = kernel.page_table.release(&mut kernel.frame_alloc);
    freed.sort();
    assert_eq!(freed, vec![Frame(0x80208), Frame(0x80209), Frame(0x8020a)]);
}

#[test]
fn kernel_image_above_memory_is_invalid() {
    let mut layout = image();
    layout.ekernel = MEMORY_END + 1;
    assert_eq!(
        error_of(Kernel::new(layout)),
        Some(KernelError::Frame(FrameError::Invalid))
    );
}

#[test]
fn kernel_image_that_fills_memory_leaves_no_page() {
    let mut layout = image();
    layout.ekernel = MEMORY_END - 0xfff;
    assert_eq!(
        error_of(Kernel::new(layout)),
        Some(KernelError::Frame(FrameError::NoAligned))
    );
    layout.ekernel = MEMORY_END;
    assert_eq!(
        error_of(Kernel::new(layout)),
        Some(KernelError::Frame(FrameError::NoAligned))
    );
}

#[test]
fn kernel_needs_frames_for_its_tables() {
    let mut layout = image();
    layout.ekernel = MEMORY_END - 0x2000;
    assert_eq!(
        error_of(Kernel::new(layout)),
        Some(KernelError::PageTable(PageTableError::NoMorePhysical))
    );
    layout.ekernel = MEMORY_END - 0x3000;
    assert_eq!(error_of(Kernel::new(layout)), None);
}

#[test]
fn kernel_image_outside_the_envelope_is_refused() {
    let mut layout = image();
    layout.sbss = 1 << 39;
    layout.ebss = (1 << 39) + 0x1000;
    assert_eq!(
        error_of(Kernel::new(layout)),
        Some(KernelError::PageTable(PageTableError::InvalidVPN(1 << 27)))
    );
}

#[test]
fn reversed_region_is_not_well_formed() {
    let mut layout = image();
    layout.etext = layout.stext - 1;
    assert!(!layout.is_wf());
}

#[test]
fn init_frame_allocator_starts_after_the_image() {
    let mut a = Kernel::init_frame_allocator(0x8020_7801).unwrap_or_else(|_| panic!());
    assert_eq!(a.allocate(), Some(Frame(0x80208)));
    assert!(matches!(
        Kernel::init_frame_allocator(MEMORY_END + 1),
        Err(FrameError::Invalid)
    ));
}

#[test]
fn map_region_maps_whole_pages_only() {
    let mut a = FrameAllocator::new(0x9000_0000, 0x9010_0000, 0).unwrap_or_else(|_| panic!());
    let mut mem = PhysicalMemory::new();
    let mut rpt = RootPageTable::new(&mut a, &mut mem).unwrap_or_else(|_| panic!());
    assert_eq!(
        Kernel::map_region(&mut rpt, &mut a, &mut mem, 0x1000, 0x3fff, Flags::r()),
        Ok(())
    );
    assert!(rpt.lookup(&mem, VirtualPageNumber(1)).is_some());
    assert!(rpt.lookup(&mem, VirtualPageNumber(2)).is_some());
    assert_eq!(rpt.lookup(&mem, VirtualPageNumber(3)), None);
    assert_eq!(rpt.lookup(&mem, VirtualPageNumber(0)), None);
}

#[test]
fn map_region_of_no_page_changes_nothing() {
    let mut a = FrameAllocator::new(0x9000_0000, 0x9010_0000, 0).unwrap_or_else(|_| panic!());
    let mut mem = PhysicalMemory::new();
    let mut rpt = RootPageTable::new(&mut a, &mut mem).unwrap_or_else(|_| panic!());
    assert_eq!(
        Kernel::map_region(&mut rpt, &mut a, &mut mem, 0x5000, 0x5000, Flags::r()),
        Ok(())
    );
    assert_eq!(a.allocate(), Some(Frame(0x90001)));
}

#[test]
fn map_region_stops_at_the_first_failure() {
    let mut a = FrameAllocator::new(0x9000_0000, 0x9000_3000, 0).unwrap_or_else(|_| panic!());
    let mut mem = PhysicalMemory::new();
    let mut rpt = RootPageTable::new(&mut a, &mut mem).unwrap_or_else(|_| panic!());
    let start: u64 = 511 << 12;
    assert_eq!(
        Kernel::map_region(&mut rpt, &mut a, &mut mem, start, start + 0x3000, Flags::r()),
        Err(PageTableError::NoMorePhysical)
    );
    assert!(rpt.lookup(&mem, VirtualPageNumber(511)).is_some());
    assert_eq!(rpt.lookup(&mem, VirtualPageNumber(512)), None);
    assert_eq!(rpt.lookup(&mem, VirtualPageNumber(513)), None);
}
