use sv39_mm::mm::frame_allocator::{FrameAllocator, FrameError};
use sv39_mm::mm::{Frame, MAX_FRAME};

fn error_of(r: Result<FrameAllocator, FrameError>) -> Option<FrameError> {
    match r {
        Ok(_) => None,
        Err(e) => Some(e),
    }
}

#[test]
fn reversed_range_is_invalid() {
    assert_eq!(
        error_of(FrameAllocator::new(0x9000_0000, 0x8000_0000, 0)),
        Some(FrameError::Invalid)
    );
}

#[test]
fn range_inside_kernel_image_is_invalid() {
    assert_eq!(
        error_of(FrameAllocator::new(0x8000_0000, 0x8800_0000, 0x8020_0000)),
        Some(FrameError::Invalid)
    );
}

#[test]
fn range_above_largest_frame_is_invalid() {
    assert_eq!(
        error_of(FrameAllocator::new(0x8000_0000, MAX_FRAME + 1, 0)),
        Some(FrameError::Invalid)
    );
    assert_eq!(error_of(FrameAllocator::new(0, MAX_FRAME, 0)), None);
}

#[test]
fn range_without_a_whole_page_is_not_aligned() {
    assert_eq!(
        error_of(FrameAllocator::new(0x1000, 0x1fff, 0)),
        Some(FrameError::NoAligned)
    );
    assert_eq!(
        error_of(FrameAllocator::new(0x1001, 0x2fff, 0)),
        Some(FrameError::NoAligned)
    );
    assert_eq!(
        error_of(FrameAllocator::new(1, 4097, 0)),
        Some(FrameError::NoAligned)
    );
    assert_eq!(
        error_of(FrameAllocator::new(0x1000, 0x1000, 0)),
        Some(FrameError::NoAligned)
    );
}

#[test]
fn range_starting_at_kernel_end_is_accepted() {
    assert_eq!(
        error_of(FrameAllocator::new(0x8020_0000, 0x8800_0000, 0x8020_0000)),
        None
    );
}

#[test]
fn ends_are_rounded_inwards() {
    let mut a = FrameAllocator::new(0x1001, 0x4fff, 0).unwrap_or_else(|_| panic!("refused"));
    assert_eq!(a.allocate(), Some(Frame(2)));
    assert_eq!(a.allocate(), Some(Frame(3)));
    assert_eq!(a.allocate(), None);
}

#[test]
fn bump_allocations_are_consecutive() {
    let mut a =
        FrameAllocator::new(0x8020_0000, 0x8800_0000, 0x8020_0000).unwrap_or_else(|_| panic!());
    let mut previous = a.allocate().unwrap();
    assert_eq!(previous, Frame(0x80200));
    for _ in 0..100 {
        let next = a.allocate().unwrap();
        assert_eq!(next.value(), previous.value() + 1);
        previous = next;
    }
}

#[test]
fn released_frames_come_back_last_first() {
    let mut a = FrameAllocator::new(0x10000, 0x20000, 0).unwrap_or_else(|_| panic!());
    let f1 = a.allocate().unwrap();
    let f2 = a.allocate().unwrap();
    a.dealloc(f1);
    a.dealloc(f2);
    assert_eq!(a.allocate(), Some(f2));
    assert_eq!(a.allocate(), Some(f1));
    assert_eq!(a.allocate(), Some(Frame(0x12)));
}

#[test]
fn one_page_is_exhausted_after_one_allocation() {
    let mut a = FrameAllocator::new(0x8000_0000, 0x8000_1000, 0).unwrap_or_else(|_| panic!());
    assert_eq!(a.allocate(), Some(Frame(0x80000)));
    assert_eq!(a.allocate(), None);
    assert_eq!(a.allocate(), None);
}

#[test]
fn exhausted_allocator_serves_released_frames() {
    let mut a = FrameAllocator::new(0x8000_0000, 0x8000_1000, 0).unwrap_or_else(|_| panic!());
    let f = a.allocate().unwrap();
    assert_eq!(a.allocate(), None);
    a.dealloc(f);
    assert_eq!(a.allocate(), Some(f));
    assert_eq!(a.allocate(), None);
}

#[test]
fn frames_in_use_are_never_handed_out_again() {
    let mut a = FrameAllocator::new(0x10000, 0x30000, 0).unwrap_or_else(|_| panic!());
    let mut in_use: Vec<Frame> = Vec::new();
    for round in 0..40u64 {
        if round % 3 == 2 {
            let f = in_use.remove((round as usize) % in_use.len());
            a.dealloc(f);
        } else if let Some(f) = a.allocate() {
            assert!(!in_use.contains(&f));
            in_use.push(f);
        }
    }
    assert!(!in_use.is_empty());
}

#[test]
fn dealloc_takes_any_frame() {
    let mut a = FrameAllocator::new(0x10000, 0x20000, 0).unwrap_or_else(|_| panic!());
    a.dealloc(Frame(0xdead));
    assert_eq!(a.allocate(), Some(Frame(0xdead)));
    assert_eq!(a.allocate(), Some(Frame(0x10)));
}
