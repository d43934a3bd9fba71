//! Physical memory as the engine sees it: for each frame a table of 512
//! entries, read and written by frame and slot, never through an address.
use std::collections::HashMap;
use vstd::prelude::*;

use crate::mm::sv39::page_table_entry::PTE;
use crate::mm::Frame;

verus! {

broadcast use vstd::std_specs::hash::group_hash_axioms;

/// What memory holds, mathematically: the tables of the frames that were
/// written or cleared so far, by frame number. A frame without a table
/// holds 512 zero entries.
pub type MemoryModel = Map<u64, Seq<PTE>>;

/// A table of 512 zero entries.
pub open spec fn zero_table() -> Seq<PTE> {
    Seq::new(512, |i: int| PTE(0))
}

/// The table that `frame` holds.
pub open spec fn table_of(m: MemoryModel, frame: Frame) -> Seq<PTE> {
    if m.contains_key(frame.0) {
        m[frame.0]
    } else {
        zero_table()
    }
}

/// The entry in slot `idx` of the table that `frame` holds.
pub open spec fn entry_of(m: MemoryModel, frame: Frame, idx: int) -> PTE {
    table_of(m, frame)[idx]
}

/// Memory after `pte` was written to slot `idx` of the table in `frame`.
pub open spec fn with_entry(m: MemoryModel, frame: Frame, idx: int, pte: PTE) -> MemoryModel {
    m.insert(frame.0, table_of(m, frame).update(idx, pte))
}

/// Memory after the table in `frame` was cleared.
pub open spec fn with_zeroed(m: MemoryModel, frame: Frame) -> MemoryModel {
    m.insert(frame.0, zero_table())
}

/// Every table of `m` has 512 entries.
pub open spec fn tables_wf(m: MemoryModel) -> bool {
    forall|f: u64| m.contains_key(f) ==> (#[trigger] m[f]).len() == 512
}

/// The page tables held in physical memory.
pub struct PhysicalMemory {
    tables: HashMap<u64, Vec<PTE>>,
}

impl View for PhysicalMemory {
    type V = MemoryModel;

    closed spec fn view(&self) -> MemoryModel {
        Map::new(|f: u64| self.tables@.contains_key(f), |f: u64| self.tables@[f]@)
    }
}

/// A fresh table of 512 zero entries.
fn zeroed_entries() -> (r: Vec<PTE>)
    ensures
        r@ == zero_table(),
{
    let mut t: Vec<PTE> = Vec::new();
    let mut i: u64 = 0;
    while i < 512
        invariant
            i <= 512,
            t@.len() == i,
            forall|j: int| 0 <= j < i ==> t@[j] == PTE(0),
        decreases 512 - i,
    {
        t.push(PTE(0));
        i = i + 1;
    }
    assert(t@ =~= zero_table());
    t
}

impl PhysicalMemory {
    /// Every table has 512 entries.
    pub open spec fn wf(&self) -> bool {
        tables_wf(self@)
    }

    /// Memory in which every frame holds zero entries.
    pub fn new() -> (r: PhysicalMemory)
        ensures
            r@ == Map::<u64, Seq<PTE>>::empty(),
            r.wf(),
    {
        let r = PhysicalMemory { tables: HashMap::new() };
        assert(r@ =~= Map::<u64, Seq<PTE>>::empty());
        r
    }

    /// Reads slot `idx` of the table in `frame`.
    pub fn read(&self, frame: Frame, idx: u64) -> (r: PTE)
        requires
            self.wf(),
            idx < 512,
        ensures
            r == entry_of(self@, frame, idx as int),
    {
        assert(self@.contains_key(frame.0) == self.tables@.contains_key(frame.0));
        match self.tables.get(&frame.0) {
            Some(t) => {
                assert(self@[frame.0] == t@);
                t[idx as usize]
            },
            None => PTE(0),
        }
    }

    /// A copy of the table in `frame`.
    pub fn table(&self, frame: Frame) -> (r: Vec<PTE>)
        requires
            self.wf(),
        ensures
            r@ == table_of(self@, frame),
            r@.len() == 512,
    {
        assert(self@.contains_key(frame.0) == self.tables@.contains_key(frame.0));
        match self.tables.get(&frame.0) {
            Some(t) => {
                assert(self@[frame.0] == t@);
                let mut r: Vec<PTE> = Vec::new();
                let mut i: usize = 0;
                while i < 512
                    invariant
                        i <= 512,
                        t@.len() == 512,
                        r@.len() == i,
                        forall|j: int| 0 <= j < i ==> r@[j] == t@[j],
                    decreases 512 - i,
                {
                    r.push(t[i]);
                    i = i + 1;
                }
                assert(r@ =~= t@);
                r
            },
            None => zeroed_entries(),
        }
    }

    /// Writes `pte` to slot `idx` of the table in `frame`.
    pub fn write(&mut self, frame: Frame, idx: u64, pte: PTE)
        requires
            old(self).wf(),
            idx < 512,
        ensures
            final(self)@ == with_entry(old(self)@, frame, idx as int, pte),
            final(self).wf(),
    {
        let ghost before = self@;
        assert(before.contains_key(frame.0) == self.tables@.contains_key(frame.0));
        let mut t: Vec<PTE> = match self.tables.remove(&frame.0) {
            Some(t) => {
                assert(before[frame.0] == t@);
                t
            },
            None => zeroed_entries(),
        };
        assert(t@ == table_of(before, frame));
        t.set(idx as usize, pte);
        self.tables.insert(frame.0, t);
        assert(self@ =~= with_entry(before, frame, idx as int, pte));
    }

    /// Clears the table in `frame`.
    pub fn zero(&mut self, frame: Frame)
        requires
            old(self).wf(),
        ensures
            final(self)@ == with_zeroed(old(self)@, frame),
            final(self).wf(),
    {
        let ghost before = self@;
        let t: Vec<PTE> = zeroed_entries();
        self.tables.insert(frame.0, t);
        assert(self@ =~= with_zeroed(before, frame));
    }
}

} // verus!
