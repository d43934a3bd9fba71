//! The physical-frame allocator: a bump region with a stack of released
//! frames in front of it.
use vstd::prelude::*;

use crate::mm::{Frame, MAX_FRAME, PAGE_SIZE};

verus! {

/// Why an allocator could not be built over a byte range.
#[derive(Clone, Copy, Debug, PartialEq, Eq, Structural)]
pub enum FrameError {
    /// The range holds no whole page once its ends are aligned.
    NoAligned,
    /// The range is reversed, reaches into the kernel image, or ends above
    /// the largest representable frame number.
    Invalid,
}

pub type FrameResult<T> = Result<T, FrameError>;

/// The smallest page boundary at or above `addr`.
pub open spec fn align_up(addr: int) -> int {
    if addr % 4096 == 0 {
        addr
    } else {
        addr - addr % 4096 + 4096
    }
}

/// The largest page boundary at or below `addr`.
pub open spec fn align_down(addr: int) -> int {
    addr - addr % 4096
}

/// What an allocator is, mathematically: the unallocated byte range
/// `[current, end)` and the stack of released frames, top last.
pub struct AllocatorModel {
    pub current: u64,
    pub end: u64,
    pub free: Seq<Frame>,
}

impl AllocatorModel {
    /// Both ends of the bump region are page boundaries, the region is not
    /// reversed, and it does not reach past the end of the address space.
    pub open spec fn wf(self) -> bool {
        self.current % 4096 == 0 && self.end % 4096 == 0 && self.current <= self.end && self.end
            <= MAX_FRAME
    }

    /// The frame the next allocation hands out, if any: the most recently
    /// released frame, else the first page of the bump region.
    pub open spec fn next_frame(self) -> Option<Frame> {
        if self.free.len() > 0 {
            Some(self.free.last())
        } else if self.current >= self.end {
            None
        } else {
            Some(Frame(self.current >> 12))
        }
    }

    /// The allocator after its next allocation.
    pub open spec fn after_alloc(self) -> AllocatorModel {
        if self.free.len() > 0 {
            AllocatorModel { free: self.free.drop_last(), ..self }
        } else if self.current >= self.end {
            self
        } else {
            AllocatorModel { current: (self.current + 4096) as u64, ..self }
        }
    }

    /// The allocator after `frame` was released to it.
    pub open spec fn after_dealloc(self, frame: Frame) -> AllocatorModel {
        AllocatorModel { free: self.free.push(frame), ..self }
    }

    /// The allocator after every frame of `frames` was released, first to last.
    pub open spec fn after_dealloc_all(self, frames: Seq<Frame>) -> AllocatorModel {
        AllocatorModel { free: self.free + frames, ..self }
    }

    /// `in_use` is a sound ledger of the frames that callers hold: no frame
    /// is both held and free, no frame is free twice, and every held or free
    /// frame lies below the bump region.
    pub open spec fn exclusive(self, in_use: Set<Frame>) -> bool {
        &&& self.wf()
        &&& self.free.no_duplicates()
        &&& forall|i: int| 0 <= i < self.free.len() ==> !in_use.contains(#[trigger] self.free[i])
        &&& forall|i: int|
            0 <= i < self.free.len() ==> (#[trigger] self.free[i]).0 * 4096 < self.current
        &&& forall|f: Frame| #[trigger] in_use.contains(f) ==> f.0 * 4096 < self.current
    }
}

/// Owner of the unallocated physical range and of the released frames.
pub struct FrameAllocator {
    current: u64,
    end: u64,
    recycle: Vec<Frame>,
}

impl View for FrameAllocator {
    type V = AllocatorModel;

    closed spec fn view(&self) -> AllocatorModel {
        AllocatorModel { current: self.current, end: self.end, free: self.recycle@ }
    }
}

impl FrameAllocator {
    /// Builds an allocator over the byte range `[start, end)`, of which
    /// nothing may lie below `kernel_end`, the first byte after the kernel
    /// image. `start` is rounded up and `end` down to page boundaries.
    pub fn new(start: u64, end: u64, kernel_end: u64) -> (r: FrameResult<FrameAllocator>)
        ensures
            (start > end || start < kernel_end || end > MAX_FRAME) <==> r is Err && r->Err_0
                == FrameError::Invalid,
            (start <= end && start >= kernel_end && end <= MAX_FRAME && align_up(start as int)
                + 4096 > align_down(end as int)) <==> r is Err && r->Err_0
                == FrameError::NoAligned,
            r is Ok ==> r->Ok_0@.wf() && r->Ok_0@.current == align_up(start as int)
                && r->Ok_0@.end == align_down(end as int) && r->Ok_0@.free == Seq::<Frame>::empty()
                && r->Ok_0@.exclusive(Set::empty()),
    {
        if start > end || start < kernel_end || end > MAX_FRAME {
            return Err(FrameError::Invalid);
        }
        let mut head: u64 = start;
        let mut rest: u64 = head % PAGE_SIZE;
        if rest != 0 {
            head += PAGE_SIZE - rest;
        }
        let mut tail: u64 = end;
        rest = tail % PAGE_SIZE;
        if rest != 0 {
            tail -= rest;
        }
        if head >= tail {
            return Err(FrameError::NoAligned);
        }
        let a = FrameAllocator { current: head, end: tail, recycle: Vec::new() };
        assert(a@.free =~= Seq::<Frame>::empty());
        Ok(a)
    }

    /// Hands out one frame: the most recently released one if there is any,
    /// else the next page of the bump region; `None` when both are used up.
    pub fn allocate(&mut self) -> (r: Option<Frame>)
        requires
            old(self)@.wf(),
        ensures
            r == old(self)@.next_frame(),
            final(self)@ == old(self)@.after_alloc(),
            final(self)@.wf(),
    {
        if self.recycle.len() > 0 {
            self.recycle.pop()
        } else if self.current >= self.end {
            None
        } else {
            let at: u64 = self.current;
            self.current = at + PAGE_SIZE;
            Some(Frame(at >> 12))
        }
    }

    /// Puts `frame` on top of the stack of released frames. Nothing is
    /// checked: whether the frame was handed out before, and whether it is
    /// free already, is the caller's business.
    pub fn dealloc(&mut self, frame: Frame)
        ensures
            final(self)@ == old(self)@.after_dealloc(frame),
    {
        self.recycle.push(frame);
    }
}

/// A frame released last comes back first.
pub proof fn lemma_free_list_is_a_stack(a: AllocatorModel, f1: Frame, f2: Frame)
    ensures
        a.after_dealloc(f1).after_dealloc(f2).next_frame() == Some(f2),
        a.after_dealloc(f1).after_dealloc(f2).after_alloc().next_frame() == Some(f1),
        a.after_dealloc(f1).after_dealloc(f2).after_alloc().after_alloc() == a,
{
    let b = a.after_dealloc(f1).after_dealloc(f2);
    assert(b.free.drop_last() =~= a.free.push(f1));
    assert(b.after_alloc().free.drop_last() =~= a.free);
}

/// With nothing released, two allocations in a row that both succeed hand
/// out neighbouring frames, the lower one first.
pub proof fn lemma_bump_is_monotonic(a: AllocatorModel)
    requires
        a.wf(),
        a.free.len() == 0,
        a.next_frame() is Some,
        a.after_alloc().next_frame() is Some,
    ensures
        a.after_alloc().next_frame()->Some_0.0 == a.next_frame()->Some_0.0 + 1,
        a.next_frame()->Some_0.0 * 4096 == a.current,
        a.next_frame()->Some_0.in_range(),
        a.after_alloc().next_frame()->Some_0.in_range(),
{
    let c: u64 = a.current;
    assert(c % 4096 == 0 && c < 0xFFF_FFFF_FFFF ==> (((c + 4096) as u64) >> 12) == (c >> 12) + 1
        && (c >> 12) * 4096 == c) by (bit_vector);
}

/// Every frame that a sound allocator hands out fits the 44 bits of the
/// entry format.
pub proof fn lemma_allocated_frame_in_range(a: AllocatorModel, in_use: Set<Frame>)
    requires
        a.exclusive(in_use),
        a.next_frame() is Some,
    ensures
        a.next_frame()->Some_0.in_range(),
{
    if a.free.len() > 0 {
        let n = a.free.len() - 1;
        assert(a.free[n].0 * 4096 < a.current);
    } else {
        let c: u64 = a.current;
        assert(c <= 0xFFF_FFFF_FFFF ==> (c >> 12) <= 0xFFF_FFFF_FFFF) by (bit_vector);
    }
}

/// An allocation never hands out a frame that a caller still holds: with a
/// sound ledger `in_use`, the frame handed out is not in it, and the ledger
/// with that frame added is sound for the allocator afterwards.
pub proof fn lemma_alloc_is_exclusive(a: AllocatorModel, in_use: Set<Frame>)
    requires
        a.exclusive(in_use),
        a.next_frame() is Some,
    ensures
        !in_use.contains(a.next_frame()->Some_0),
        a.after_alloc().exclusive(in_use.insert(a.next_frame()->Some_0)),
{
    let f = a.next_frame()->Some_0;
    let b = a.after_alloc();
    if a.free.len() > 0 {
        let n = a.free.len() - 1;
        assert(a.free[n] == f);
        assert forall|i: int| 0 <= i < b.free.len() implies !in_use.insert(f).contains(
            #[trigger] b.free[i],
        ) by {
            assert(b.free[i] == a.free[i]);
            assert(a.free[i] != a.free[n]);
        }
        assert forall|i: int| 0 <= i < b.free.len() implies (#[trigger] b.free[i]).0 * 4096
            < b.current by {
            assert(b.free[i] == a.free[i]);
        }
    } else {
        let c: u64 = a.current;
        assert(c % 4096 == 0 && c < 0xFFF_FFFF_FFFF ==> (c >> 12) * 4096 == c) by (bit_vector);
        assert(f.0 * 4096 == a.current);
        assert(b.current == a.current + 4096);
        if in_use.contains(f) {
            assert(f.0 * 4096 < a.current);
        }
    }
}

/// Releasing a frame that a caller holds keeps the ledger sound once the
/// frame is struck from it.
pub proof fn lemma_dealloc_keeps_exclusive(a: AllocatorModel, in_use: Set<Frame>, frame: Frame)
    requires
        a.exclusive(in_use),
        in_use.contains(frame),
    ensures
        a.after_dealloc(frame).exclusive(in_use.remove(frame)),
{
    let b = a.after_dealloc(frame);
    assert forall|i: int, j: int| 0 <= i < b.free.len() && 0 <= j < b.free.len() && i != j implies b.free[i]
        != b.free[j] by {
        if i < a.free.len() {
            assert(b.free[i] == a.free[i]);
        }
        if j < a.free.len() {
            assert(b.free[j] == a.free[j]);
        }
    }
    assert forall|i: int| 0 <= i < b.free.len() implies !in_use.remove(frame).contains(
        #[trigger] b.free[i],
    ) && b.free[i].0 * 4096 < b.current by {
        if i < a.free.len() {
            assert(b.free[i] == a.free[i]);
        }
    }
}

} // verus!
