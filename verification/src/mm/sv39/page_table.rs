//! The page-table engine: a lazily built three-level trie of 512-entry
//! tables, with a ledger of the frames it owns.
use vstd::prelude::*;

use crate::mm::frame_allocator::{
    lemma_alloc_is_exclusive, lemma_allocated_frame_in_range, lemma_dealloc_keeps_exclusive,
    AllocatorModel, FrameAllocator,
};
use crate::mm::memory::{
    entry_of, table_of, tables_wf, with_entry, with_zeroed, zero_table, MemoryModel,
    PhysicalMemory,
};
use crate::mm::sv39::ledger::{
    ledger_frames, ledger_insert, ledger_items, ledger_new, ledger_remove, FrameLedger,
};
use crate::mm::sv39::page_table_entry::{lemma_encode_decode, Flags, PTE};
use crate::mm::{Frame, PhysicalAddress, VirtualPageNumber, MAX_FRAME, VPN_LIMIT};

verus! {

/// The value that selects a root table when written to the translation
/// control register.
#[derive(Clone, Copy, Debug, PartialEq, Eq, Structural)]
pub struct SatpToken(pub u64);

impl SatpToken {
    pub fn value(&self) -> (r: u64)
        ensures
            r == self.0,
    {
        self.0
    }
}

impl From<u64> for SatpToken {
    fn from(value: u64) -> (r: SatpToken) {
        SatpToken(value)
    }
}

impl vstd::std_specs::convert::FromSpecImpl<u64> for SatpToken {
    open spec fn obeys_from_spec() -> bool {
        true
    }

    open spec fn from_spec(value: u64) -> SatpToken {
        SatpToken(value)
    }
}

impl From<SatpToken> for u64 {
    fn from(value: SatpToken) -> (r: u64) {
        value.0
    }
}

impl vstd::std_specs::convert::FromSpecImpl<SatpToken> for u64 {
    open spec fn obeys_from_spec() -> bool {
        true
    }

    open spec fn from_spec(value: SatpToken) -> u64 {
        value.0
    }
}

/// Why the engine could not do what was asked.
#[derive(Clone, Copy, Debug, PartialEq, Eq, Structural)]
pub enum PageTableError {
    /// The allocator has no frame left.
    NoMorePhysical,
    /// The page number does not split into three 9-bit indices.
    InvalidVPN(u64),
}

/// Where a virtual page is to point.
#[derive(Clone, Copy, Debug, PartialEq, Eq, Structural)]
pub enum MapType {
    /// At the frame whose number is the page number.
    Identical,
    /// At the given frame.
    UseFrame(Frame),
}

/// One mapping request: the page, where it is to point, and with which
/// permissions.
#[derive(Clone, Copy, Debug)]
pub struct MapBlock {
    pub vpn: VirtualPageNumber,
    pub map_type: MapType,
    pub permission: Flags,
}

impl MapBlock {
    pub fn new(vpn: u64, map_type: MapType, permission: Flags) -> (r: MapBlock)
        ensures
            r.vpn == VirtualPageNumber(vpn),
            r.map_type == map_type,
            r.permission == permission,
    {
        MapBlock { vpn: VirtualPageNumber(vpn), map_type, permission }
    }

    /// The frame the page is to point at.
    pub open spec fn target(self) -> Frame {
        match self.map_type {
            MapType::Identical => Frame(self.vpn.0),
            MapType::UseFrame(f) => f,
        }
    }

    /// The leaf entry the request installs: the target frame with the
    /// requested permissions and the valid flag.
    pub open spec fn leaf(self) -> PTE {
        PTE::encode(self.target(), self.permission.spec_union(Flags(1)))
    }
}

/// The frame in which the table behind a freshly allocated `frame` lives:
/// the frame of its base address.
pub open spec fn table_frame(frame: Frame) -> Frame {
    frame.spec_base().spec_into_frame()
}

/// What one get-or-create step leaves behind.
pub struct StepModel {
    pub mem: MemoryModel,
    pub alloc: AllocatorModel,
    /// The frame of the next table; `None` if one was needed and none was left.
    pub frame: Option<Frame>,
    /// Whether the frame was taken from the allocator in this step.
    pub created: bool,
}

/// One get-or-create step at slot `idx` of the table in `table`: a valid
/// entry is followed; else a frame is taken from the allocator, its table
/// cleared, and an entry with only the valid flag installed that points at it.
pub open spec fn step(mem: MemoryModel, alloc: AllocatorModel, table: Frame, idx: int) -> StepModel {
    let e = entry_of(mem, table, idx);
    if e.spec_is_valid() {
        StepModel { mem, alloc, frame: Some(e.spec_ppn()), created: false }
    } else {
        match alloc.next_frame() {
            None => StepModel { mem, alloc, frame: None, created: false },
            Some(f) => StepModel {
                mem: with_entry(with_zeroed(mem, table_frame(f)), table, idx, PTE::encode(f, Flags(1))),
                alloc: alloc.after_alloc(),
                frame: Some(f),
                created: true,
            },
        }
    }
}

/// The entry that a walk from `root` finds for `vpn`: `None` where the page
/// number is outside the envelope or an entry on the way is not valid.
pub open spec fn walk(mem: MemoryModel, root: Frame, vpn: VirtualPageNumber) -> Option<PTE> {
    let idx = vpn.spec_vpns();
    let e2 = entry_of(mem, root, idx.level2 as int);
    let e1 = entry_of(mem, e2.spec_ppn(), idx.level1 as int);
    let e0 = entry_of(mem, e1.spec_ppn(), idx.level0 as int);
    if vpn.0 < VPN_LIMIT && e2.spec_is_valid() && e1.spec_is_valid() && e0.spec_is_valid() {
        Some(e0)
    } else {
        None
    }
}

/// The engine with all it works on: the root table's frame, the ledger of
/// owned frame numbers, memory and the allocator.
pub struct EngineModel {
    pub root: Frame,
    pub owned: Set<u64>,
    pub mem: MemoryModel,
    pub alloc: AllocatorModel,
}

/// What one mapping request comes to.
pub struct MapOutcome {
    pub result: Result<(), PageTableError>,
    pub state: EngineModel,
}

/// The ledger after a step: a frame taken from the allocator is entered.
pub open spec fn owned_after(owned: Set<u64>, s: StepModel) -> Set<u64> {
    if s.created {
        owned.insert(s.frame->Some_0.0)
    } else {
        owned
    }
}

/// The ledger after the leaf entry was replaced: the frame of a valid
/// displaced entry, which goes back to the allocator, is struck; then an
/// explicitly given target frame is entered.
pub open spec fn owned_after_leaf(owned: Set<u64>, displaced: PTE, map_type: MapType) -> Set<u64> {
    let kept = if displaced.spec_is_valid() {
        owned.remove(displaced.spec_ppn().0)
    } else {
        owned
    };
    match map_type {
        MapType::Identical => kept,
        MapType::UseFrame(f) => kept.insert(f.0),
    }
}

/// The tables that a request for `vpn` goes through below the root: the
/// middle one and the leaf one, once both steps found or made them.
pub open spec fn path(s: EngineModel, vpn: VirtualPageNumber) -> Option<(Frame, Frame)> {
    let idx = vpn.spec_vpns();
    let s2 = step(s.mem, s.alloc, s.root, idx.level2 as int);
    if vpn.0 >= VPN_LIMIT || s2.frame is None {
        None
    } else {
        let t1 = table_frame(s2.frame->Some_0);
        let s1 = step(s2.mem, s2.alloc, t1, idx.level1 as int);
        if s1.frame is None {
            None
        } else {
            Some((t1, table_frame(s1.frame->Some_0)))
        }
    }
}

/// A mapping request, step by step. A page number outside the envelope is
/// refused and nothing changes. Else the root table and the middle table are
/// stepped through, each table made on the way entered in the ledger; when
/// the allocator gives out, what was made so far stays. At the leaf table the
/// new entry replaces the old one; a valid old entry has its frame released
/// and struck from the ledger, and then an explicitly given target frame is
/// entered in the ledger.
pub open spec fn map_model(s: EngineModel, block: MapBlock) -> MapOutcome {
    let idx = block.vpn.spec_vpns();
    let s2 = step(s.mem, s.alloc, s.root, idx.level2 as int);
    let owned2 = owned_after(s.owned, s2);
    if block.vpn.0 >= VPN_LIMIT {
        MapOutcome { result: Err(PageTableError::InvalidVPN(block.vpn.0)), state: s }
    } else if s2.frame is None {
        MapOutcome { result: Err(PageTableError::NoMorePhysical), state: s }
    } else {
        let t1 = table_frame(s2.frame->Some_0);
        let s1 = step(s2.mem, s2.alloc, t1, idx.level1 as int);
        let owned1 = owned_after(owned2, s1);
        if s1.frame is None {
            MapOutcome {
                result: Err(PageTableError::NoMorePhysical),
                state: EngineModel { root: s.root, owned: owned2, mem: s2.mem, alloc: s2.alloc },
            }
        } else {
            let t0 = table_frame(s1.frame->Some_0);
            let displaced = entry_of(s1.mem, t0, idx.level0 as int);
            MapOutcome {
                result: Ok(()),
                state: EngineModel {
                    root: s.root,
                    owned: owned_after_leaf(owned1, displaced, block.map_type),
                    mem: with_entry(s1.mem, t0, idx.level0 as int, block.leaf()),
                    alloc: if displaced.spec_is_valid() {
                        s1.alloc.after_dealloc(displaced.spec_ppn())
                    } else {
                        s1.alloc
                    },
                },
            }
        }
    }
}

/// The three tables of a request's path are three different frames.
pub open spec fn path_is_a_chain(s: EngineModel, vpn: VirtualPageNumber) -> bool {
    path(s, vpn) matches Some(p) && p.0 != s.root && p.1 != s.root && p.0 != p.1
}

/// The table behind a frame lives at the frame's low 44 bits, and is the
/// frame that an entry made for it points at.
pub proof fn lemma_table_frame(f: Frame)
    ensures
        table_frame(f) == Frame(f.0 & MAX_FRAME),
        table_frame(f).in_range(),
        f.in_range() ==> table_frame(f) == f,
        PTE::encode(f, Flags(1)).spec_ppn() == table_frame(f),
        PTE::encode(f, Flags(1)).spec_is_valid(),
{
    let v: u64 = f.0;
    assert((((v & 0xFFF_FFFF_FFFF) << 12) >> 12) == (v & 0xFFF_FFFF_FFFF) && (v & 0xFFF_FFFF_FFFF)
        <= 0xFFF_FFFF_FFFF) by (bit_vector);
    assert(v <= 0xFFF_FFFF_FFFF ==> (v & 0xFFF_FFFF_FFFF) == v) by (bit_vector);
    lemma_encode_decode(f, Flags(1));
    assert(1u8 & 1u8 == 1u8) by (bit_vector);
}

/// The frame field of any entry fits 44 bits.
pub proof fn lemma_ppn_in_range(e: PTE)
    ensures
        e.spec_ppn().in_range(),
        table_frame(e.spec_ppn()) == e.spec_ppn(),
{
    let w: u64 = e.0;
    assert(((w >> 10) & 0xFFF_FFFF_FFFF) <= 0xFFF_FFFF_FFFF) by (bit_vector);
    lemma_table_frame(e.spec_ppn());
}

/// The indices of a page number inside the envelope address slots of a
/// 512-entry table.
pub proof fn lemma_indices_in_table(vpn: VirtualPageNumber)
    requires
        vpn.0 < VPN_LIMIT,
    ensures
        vpn.spec_vpns().wf(),
{
    let v: u64 = vpn.0;
    assert(v < 0x800_0000 ==> (v >> 18) < 512 && (v & 511) < 512 && ((v >> 9) & 511) < 512)
        by (bit_vector);
}

/// One step keeps every table at 512 entries, and leaves behind a valid
/// entry in the slot it went through that points at the table it returns.
pub proof fn lemma_step(mem: MemoryModel, alloc: AllocatorModel, table: Frame, idx: int)
    requires
        tables_wf(mem),
        0 <= idx < 512,
    ensures
        tables_wf(step(mem, alloc, table, idx).mem),
        step(mem, alloc, table, idx).frame matches Some(f) ==> {
            &&& table_frame(f).in_range()
            &&& table_frame(f) != table ==> {
                &&& entry_of(step(mem, alloc, table, idx).mem, table, idx).spec_is_valid()
                &&& entry_of(step(mem, alloc, table, idx).mem, table, idx).spec_ppn()
                    == table_frame(f)
            }
        },
        forall|g: Frame|
            g != table && !(step(mem, alloc, table, idx).frame matches Some(f) && g == table_frame(
                f,
            )) ==> #[trigger] table_of(step(mem, alloc, table, idx).mem, g) == table_of(mem, g),
{
    let e = entry_of(mem, table, idx);
    lemma_ppn_in_range(e);
    if !e.spec_is_valid() && alloc.next_frame() is Some {
        let f = alloc.next_frame()->Some_0;
        lemma_table_frame(f);
        let cleared = with_zeroed(mem, table_frame(f));
        assert(tables_wf(cleared));
        assert(table_of(cleared, table).len() == 512);
    }
}

/// After a mapping request that succeeded, on a path of three different
/// tables: every table still has 512 entries, the root slot points at the
/// middle table, the middle slot at the leaf table, and the leaf slot holds
/// the entry that the request asked for, which is valid.
pub proof fn lemma_map_installs_path(s: EngineModel, block: MapBlock)
    requires
        tables_wf(s.mem),
        map_model(s, block).result is Ok,
        path_is_a_chain(s, block.vpn),
    ensures
        tables_wf(map_model(s, block).state.mem),
        block.vpn.0 < VPN_LIMIT,
        block.vpn.spec_vpns().wf(),
        block.leaf().spec_is_valid(),
        path(s, block.vpn)->Some_0.0.in_range(),
        path(s, block.vpn)->Some_0.1.in_range(),
        entry_of(
            map_model(s, block).state.mem,
            s.root,
            block.vpn.spec_vpns().level2 as int,
        ).spec_is_valid(),
        entry_of(
            map_model(s, block).state.mem,
            s.root,
            block.vpn.spec_vpns().level2 as int,
        ).spec_ppn() == path(s, block.vpn)->Some_0.0,
        entry_of(
            map_model(s, block).state.mem,
            path(s, block.vpn)->Some_0.0,
            block.vpn.spec_vpns().level1 as int,
        ).spec_is_valid(),
        entry_of(
            map_model(s, block).state.mem,
            path(s, block.vpn)->Some_0.0,
            block.vpn.spec_vpns().level1 as int,
        ).spec_ppn() == path(s, block.vpn)->Some_0.1,
        entry_of(
            map_model(s, block).state.mem,
            path(s, block.vpn)->Some_0.1,
            block.vpn.spec_vpns().level0 as int,
        ) == block.leaf(),
{
    let idx = block.vpn.spec_vpns();
    lemma_indices_in_table(block.vpn);
    let s2 = step(s.mem, s.alloc, s.root, idx.level2 as int);
    lemma_step(s.mem, s.alloc, s.root, idx.level2 as int);
    let t1 = table_frame(s2.frame->Some_0);
    let s1 = step(s2.mem, s2.alloc, t1, idx.level1 as int);
    lemma_step(s2.mem, s2.alloc, t1, idx.level1 as int);
    let t0 = table_frame(s1.frame->Some_0);
    let m = map_model(s, block).state.mem;
    assert(table_of(s1.mem, s.root) == table_of(s2.mem, s.root));
    assert(table_of(s1.mem, t0).len() == 512);
    assert(table_of(m, s.root) == table_of(s1.mem, s.root));
    assert(table_of(m, t1) == table_of(s1.mem, t1));
    lemma_encode_decode(block.target(), block.permission.spec_union(Flags(1)));
    let p: u8 = block.permission.0;
    assert(((p | 1u8) & 1u8) == 1u8) by (bit_vector);
}

/// Mapping a page and then walking the trie for it finds the entry that was
/// asked for: the target frame (its low 44 bits) with the requested
/// permissions and the valid flag. Stated of requests whose path goes through
/// three different tables.
pub proof fn lemma_map_then_walk(s: EngineModel, block: MapBlock)
    requires
        tables_wf(s.mem),
        map_model(s, block).result is Ok,
        path_is_a_chain(s, block.vpn),
    ensures
        walk(map_model(s, block).state.mem, s.root, block.vpn) == Some(block.leaf()),
        block.leaf().spec_ppn() == Frame(block.target().0 & MAX_FRAME),
        block.target().in_range() ==> block.leaf().spec_ppn() == block.target(),
        block.leaf().spec_flags() == block.permission.spec_union(Flags(1)),
{
    lemma_map_installs_path(s, block);
    lemma_encode_decode(block.target(), block.permission.spec_union(Flags(1)));
}

/// Mapping a page to a frame `f1` and then to a frame `f2` releases `f1`:
/// the second request succeeds without taking a frame, `f1` is the frame
/// that the allocator hands out next, and the walk for the page finds `f2`.
/// Stated of first requests whose path goes through three different tables.
pub proof fn lemma_remap_releases_displaced(
    s: EngineModel,
    vpn: VirtualPageNumber,
    f1: Frame,
    perm1: Flags,
    f2: Frame,
    perm2: Flags,
)
    requires
        tables_wf(s.mem),
        f1.in_range(),
        map_model(s, (MapBlock { vpn, map_type: MapType::UseFrame(f1), permission: perm1 })).result
            is Ok,
        path_is_a_chain(s, vpn),
    ensures
        ({
            let first = map_model(
                s,
                (MapBlock { vpn, map_type: MapType::UseFrame(f1), permission: perm1 }),
            ).state;
            let b2 = MapBlock { vpn, map_type: MapType::UseFrame(f2), permission: perm2 };
            let second = map_model(first, b2);
            &&& second.result is Ok
            &&& second.state.alloc == first.alloc.after_dealloc(f1)
            &&& second.state.alloc.next_frame() == Some(f1)
            &&& walk(second.state.mem, s.root, vpn) == Some(b2.leaf())
            &&& f2.in_range() ==> b2.leaf().spec_ppn() == f2
            &&& f1 != f2 ==> !second.state.owned.contains(f1.0)
        }),
{
    let b1 = MapBlock { vpn, map_type: MapType::UseFrame(f1), permission: perm1 };
    let b2 = MapBlock { vpn, map_type: MapType::UseFrame(f2), permission: perm2 };
    let first = map_model(s, b1).state;
    lemma_map_installs_path(s, b1);
    lemma_encode_decode(f1, perm1.spec_union(Flags(1)));
    let idx = vpn.spec_vpns();
    let t1 = path(s, vpn)->Some_0.0;
    let t0 = path(s, vpn)->Some_0.1;
    lemma_table_frame(t1);
    lemma_table_frame(t0);
    assert(first.root == s.root);
    let s2 = step(first.mem, first.alloc, first.root, idx.level2 as int);
    assert(s2.frame == Some(t1) && s2.mem == first.mem && s2.alloc == first.alloc);
    let s1 = step(s2.mem, s2.alloc, t1, idx.level1 as int);
    assert(s1.frame == Some(t0) && s1.mem == first.mem && s1.alloc == first.alloc);
    assert(path(first, vpn) == Some((t1, t0)));
    assert(entry_of(s1.mem, t0, idx.level0 as int) == b1.leaf());
    assert(b1.leaf().spec_ppn() == f1);
    let second = map_model(first, b2);
    assert(second.state.alloc == first.alloc.after_dealloc(f1));
    assert(first.alloc.free.push(f1).last() == f1);
    assert(displaced(first, b2) == b1.leaf());
    lemma_map_then_walk(first, b2);
}

/// An identity mapping enters in the ledger nothing but frames that the
/// allocator handed out while the request was served.
pub proof fn lemma_identity_map_owns_only_allocated(s: EngineModel, block: MapBlock, x: u64)
    requires
        block.map_type == MapType::Identical,
        map_model(s, block).state.owned.contains(x),
        !s.owned.contains(x),
    ensures
        s.alloc.next_frame() == Some(Frame(x)) || s.alloc.after_alloc().next_frame() == Some(
            Frame(x),
        ),
{
}

/// The number of tables that a request makes on its way to the leaf table.
pub open spec fn tables_made(s: EngineModel, block: MapBlock) -> nat {
    let idx = block.vpn.spec_vpns();
    let s2 = step(s.mem, s.alloc, s.root, idx.level2 as int);
    if block.vpn.0 >= VPN_LIMIT || s2.frame is None {
        0
    } else {
        let s1 = step(s2.mem, s2.alloc, table_frame(s2.frame->Some_0), idx.level1 as int);
        (if s2.created {
            1nat
        } else {
            0nat
        }) + (if s1.created {
            1nat
        } else {
            0nat
        })
    }
}

/// The entry that a request finds in the leaf slot and puts its own in
/// place of.
pub open spec fn displaced(s: EngineModel, block: MapBlock) -> PTE {
    let idx = block.vpn.spec_vpns();
    let s2 = step(s.mem, s.alloc, s.root, idx.level2 as int);
    let s1 = step(s2.mem, s2.alloc, table_frame(s2.frame->Some_0), idx.level1 as int);
    entry_of(s1.mem, table_frame(s1.frame->Some_0), idx.level0 as int)
}

/// The frames held by callers after a request, when `in_use` were held
/// before it: those, and the frames of the tables that the request made.
pub open spec fn in_use_after(s: EngineModel, block: MapBlock, in_use: Set<Frame>) -> Set<Frame> {
    let idx = block.vpn.spec_vpns();
    let s2 = step(s.mem, s.alloc, s.root, idx.level2 as int);
    let s1 = step(s2.mem, s2.alloc, table_frame(s2.frame->Some_0), idx.level1 as int);
    let first = if s2.created {
        in_use.insert(s2.frame->Some_0)
    } else {
        in_use
    };
    if s1.created {
        first.insert(s1.frame->Some_0)
    } else {
        first
    }
}

/// The ledger holds finitely many frames, all of them held by callers.
pub open spec fn ledger_within(owned: Set<u64>, in_use: Set<Frame>) -> bool {
    owned.finite() && forall|x: u64| #[trigger] owned.contains(x) ==> in_use.contains(Frame(x))
}

/// An identity mapping of a page that was not mapped before adds to the
/// ledger one frame for each table it made, and nothing else: every frame
/// it adds was handed out by the allocator during the request and was held
/// by nobody before. Stated of an allocator with a sound record `in_use` of
/// the frames held, among them those of the ledger.
pub proof fn lemma_identity_map_counts(s: EngineModel, block: MapBlock, in_use: Set<Frame>)
    requires
        block.map_type == MapType::Identical,
        map_model(s, block).result is Ok,
        s.alloc.exclusive(in_use),
        ledger_within(s.owned, in_use),
        !displaced(s, block).spec_is_valid(),
    ensures
        map_model(s, block).state.alloc.exclusive(in_use_after(s, block, in_use)),
        ledger_within(map_model(s, block).state.owned, in_use_after(s, block, in_use)),
        map_model(s, block).state.owned.len() == s.owned.len() + tables_made(s, block),
{
    let idx = block.vpn.spec_vpns();
    let s2 = step(s.mem, s.alloc, s.root, idx.level2 as int);
    let owned2 = owned_after(s.owned, s2);
    let first = if s2.created {
        in_use.insert(s2.frame->Some_0)
    } else {
        in_use
    };
    if s2.created {
        lemma_alloc_is_exclusive(s.alloc, in_use);
        let f = s2.frame->Some_0;
        assert(Frame(f.0) == f);
        assert(!s.owned.contains(f.0));
    }
    assert(s2.alloc.exclusive(first));
    assert(ledger_within(owned2, first)) by {
        assert forall|x: u64| #[trigger] owned2.contains(x) implies first.contains(Frame(x)) by {
            if s.owned.contains(x) {
                assert(in_use.contains(Frame(x)));
            }
        }
    }
    let s1 = step(s2.mem, s2.alloc, table_frame(s2.frame->Some_0), idx.level1 as int);
    let owned1 = owned_after(owned2, s1);
    let second = in_use_after(s, block, in_use);
    if s1.created {
        lemma_alloc_is_exclusive(s2.alloc, first);
        let f = s1.frame->Some_0;
        assert(Frame(f.0) == f);
        assert(!owned2.contains(f.0));
    }
    assert(ledger_within(owned1, second)) by {
        assert forall|x: u64| #[trigger] owned1.contains(x) implies second.contains(Frame(x)) by {
            if owned2.contains(x) {
                assert(first.contains(Frame(x)));
            }
        }
    }
}

/// The frames held by callers after a request: those held before and the
/// frames of the tables made, but the frame of a valid displaced entry,
/// which went back to the allocator.
pub open spec fn held_after(s: EngineModel, block: MapBlock, held: Set<Frame>) -> Set<Frame> {
    if displaced(s, block).spec_is_valid() {
        in_use_after(s, block, held).remove(displaced(s, block).spec_ppn())
    } else {
        in_use_after(s, block, held)
    }
}

/// A request keeps the ledger sound: when the allocator has a sound record
/// `held` of the frames held, the ledger lies within it, an explicit target
/// is held by the caller, and a displaced frame is held and is not the new
/// target, then the same is true afterwards of the record `held_after`. So
/// no frame of the ledger is ever on the free list, and a displaced frame
/// is in the ledger no longer.
pub proof fn lemma_map_keeps_ledger_sound(s: EngineModel, block: MapBlock, held: Set<Frame>)
    requires
        map_model(s, block).result is Ok,
        s.alloc.exclusive(held),
        ledger_within(s.owned, held),
        block.map_type matches MapType::UseFrame(f) ==> held.contains(f),
        displaced(s, block).spec_is_valid() ==> held.contains(displaced(s, block).spec_ppn())
            && block.map_type != MapType::UseFrame(displaced(s, block).spec_ppn()),
    ensures
        map_model(s, block).state.alloc.exclusive(held_after(s, block, held)),
        ledger_within(map_model(s, block).state.owned, held_after(s, block, held)),
        displaced(s, block).spec_is_valid() ==> !map_model(s, block).state.owned.contains(
            displaced(s, block).spec_ppn().0,
        ),
{
    let idx = block.vpn.spec_vpns();
    let s2 = step(s.mem, s.alloc, s.root, idx.level2 as int);
    let owned2 = owned_after(s.owned, s2);
    let first = if s2.created {
        held.insert(s2.frame->Some_0)
    } else {
        held
    };
    if s2.created {
        lemma_alloc_is_exclusive(s.alloc, held);
    }
    assert(ledger_within(owned2, first)) by {
        assert forall|x: u64| #[trigger] owned2.contains(x) implies first.contains(Frame(x)) by {
            if s.owned.contains(x) {
                assert(held.contains(Frame(x)));
            }
        }
    }
    let s1 = step(s2.mem, s2.alloc, table_frame(s2.frame->Some_0), idx.level1 as int);
    let owned1 = owned_after(owned2, s1);
    let second = in_use_after(s, block, held);
    if s1.created {
        lemma_alloc_is_exclusive(s2.alloc, first);
    }
    assert(ledger_within(owned1, second)) by {
        assert forall|x: u64| #[trigger] owned1.contains(x) implies second.contains(Frame(x)) by {
            if owned2.contains(x) {
                assert(first.contains(Frame(x)));
            }
        }
    }
    let d = displaced(s, block);
    let after = map_model(s, block).state;
    let last = held_after(s, block, held);
    if d.spec_is_valid() {
        lemma_dealloc_keeps_exclusive(s1.alloc, second, d.spec_ppn());
        assert(Frame(d.spec_ppn().0) == d.spec_ppn());
    }
    assert forall|x: u64| #[trigger] after.owned.contains(x) implies last.contains(Frame(x)) by {
        if owned1.contains(x) {
            assert(second.contains(Frame(x)));
        }
    }
}

/// Tearing a table down after a request puts no frame on the free list
/// twice: with a sound ledger, the frames that teardown releases were not
/// free before, and the free list afterwards holds no frame twice.
pub proof fn lemma_teardown_releases_once(
    alloc: AllocatorModel,
    owned: Set<u64>,
    held: Set<Frame>,
    freed: Seq<Frame>,
)
    requires
        alloc.exclusive(held),
        ledger_within(owned, held),
        freed.no_duplicates(),
        forall|f: Frame| freed.contains(f) <==> owned.contains(f.0),
    ensures
        forall|f: Frame| freed.contains(f) ==> !alloc.free.contains(f),
        alloc.after_dealloc_all(freed).free.no_duplicates(),
{
    assert forall|f: Frame| freed.contains(f) implies !alloc.free.contains(f) by {
        assert(owned.contains(f.0));
        assert(held.contains(Frame(f.0)));
        assert(Frame(f.0) == f);
    }
    let all = alloc.free + freed;
    assert forall|i: int, j: int| 0 <= i < all.len() && 0 <= j < all.len() && i != j implies all[i]
        != all[j] by {
        let n = alloc.free.len() as int;
        if i < n && j >= n {
            assert(freed.contains(freed[j - n]));
            assert(alloc.free.contains(alloc.free[i]));
        }
        if j < n && i >= n {
            assert(freed.contains(freed[i - n]));
            assert(alloc.free.contains(alloc.free[j]));
        }
    }
}

/// `m` holds a middle table: a valid entry of the root table points at it.
pub open spec fn is_middle(s: EngineModel, m: Frame) -> bool {
    exists|i: int|
        0 <= i < 512 && (#[trigger] entry_of(s.mem, s.root, i)).spec_is_valid() && entry_of(
            s.mem,
            s.root,
            i,
        ).spec_ppn() == m
}

/// The engine is sound with respect to a record `held` of the frames held
/// by callers: every table has 512 entries; the allocator's record is sound
/// and the ledger lies within it; the root table and every table below it
/// is held; no middle table is the root table; no leaf table is the root
/// table or a middle table.
pub open spec fn engine_inv(s: EngineModel, held: Set<Frame>) -> bool {
    &&& tables_wf(s.mem)
    &&& s.alloc.exclusive(held)
    &&& ledger_within(s.owned, held)
    &&& s.root.in_range()
    &&& held.contains(s.root)
    &&& forall|i: int|
        0 <= i < 512 && (#[trigger] entry_of(s.mem, s.root, i)).spec_is_valid() ==> entry_of(
            s.mem,
            s.root,
            i,
        ).spec_ppn() != s.root && held.contains(entry_of(s.mem, s.root, i).spec_ppn())
    &&& forall|i: int, j: int|
        0 <= i < 512 && 0 <= j < 512 && entry_of(s.mem, s.root, i).spec_is_valid() && (
        #[trigger] entry_of(s.mem, entry_of(s.mem, s.root, i).spec_ppn(), j)).spec_is_valid()
            ==> {
            let leaf = entry_of(s.mem, entry_of(s.mem, s.root, i).spec_ppn(), j).spec_ppn();
            leaf != s.root && held.contains(leaf) && !is_middle(s, leaf)
        }
}

/// In a sound engine every request that succeeds goes through three
/// different tables.
pub proof fn lemma_sound_engine_has_chains(s: EngineModel, block: MapBlock, held: Set<Frame>)
    requires
        engine_inv(s, held),
        map_model(s, block).result is Ok,
    ensures
        path_is_a_chain(s, block.vpn),
{
    let idx = block.vpn.spec_vpns();
    lemma_indices_in_table(block.vpn);
    let i2 = idx.level2 as int;
    let i1 = idx.level1 as int;
    let s2 = step(s.mem, s.alloc, s.root, i2);
    let e2 = entry_of(s.mem, s.root, i2);
    lemma_ppn_in_range(e2);
    let first = if s2.created {
        held.insert(s2.frame->Some_0)
    } else {
        held
    };
    if s2.created {
        lemma_alloc_is_exclusive(s.alloc, held);
        lemma_allocated_frame_in_range(s.alloc, held);
        lemma_table_frame(s2.frame->Some_0);
    }
    let t1 = table_frame(s2.frame->Some_0);
    assert(t1 != s.root && first.contains(t1));
    assert(s2.alloc.exclusive(first));
    let s1 = step(s2.mem, s2.alloc, t1, i1);
    let e1 = entry_of(s2.mem, t1, i1);
    lemma_ppn_in_range(e1);
    if s1.created {
        lemma_alloc_is_exclusive(s2.alloc, first);
        lemma_allocated_frame_in_range(s2.alloc, first);
        lemma_table_frame(s1.frame->Some_0);
    } else {
        if s2.created {
            let cleared = with_zeroed(s.mem, t1);
            assert(table_of(s2.mem, t1) == table_of(cleared, t1));
            assert(e1 == PTE(0));
            assert(0u64 & 1 != 1) by (bit_vector);
        }
        assert(s2.mem == s.mem);
        assert(e2.spec_is_valid() && e2.spec_ppn() == t1);
        assert(is_middle(s, t1));
        assert(entry_of(s.mem, entry_of(s.mem, s.root, i2).spec_ppn(), i1).spec_is_valid());
    }
}

/// `l` holds a leaf table: a valid entry of a middle table points at it.
pub open spec fn is_leaf(s: EngineModel, l: Frame) -> bool {
    exists|i: int, j: int|
        0 <= i < 512 && 0 <= j < 512 && entry_of(s.mem, s.root, i).spec_is_valid() && (
        #[trigger] entry_of(s.mem, entry_of(s.mem, s.root, i).spec_ppn(), j)).spec_is_valid()
            && entry_of(s.mem, entry_of(s.mem, s.root, i).spec_ppn(), j).spec_ppn() == l
}

/// `t` holds a table of the trie.
pub open spec fn is_table(s: EngineModel, t: Frame) -> bool {
    t == s.root || is_middle(s, t) || is_leaf(s, t)
}

/// A request keeps the engine sound, when an explicit target is held by the
/// caller, and a displaced frame is held, is not the new target and holds no
/// table of the trie.
pub proof fn lemma_map_keeps_engine_sound(s: EngineModel, block: MapBlock, held: Set<Frame>)
    requires
        engine_inv(s, held),
        map_model(s, block).result is Ok,
        admissible(s, block, held),
    ensures
        engine_inv(map_model(s, block).state, held_after(s, block, held)),
{
    lemma_sound_engine_has_chains(s, block, held);
    lemma_map_installs_path(s, block);
    lemma_map_keeps_ledger_sound(s, block, held);
    let idx = block.vpn.spec_vpns();
    let i2 = idx.level2 as int;
    let i1 = idx.level1 as int;
    let i0 = idx.level0 as int;
    let root = s.root;
    let m0 = s.mem;
    let s2 = step(m0, s.alloc, root, i2);
    let m2 = s2.mem;
    let t1 = table_frame(s2.frame->Some_0);
    let s1 = step(m2, s2.alloc, t1, i1);
    let m1 = s1.mem;
    let t0 = table_frame(s1.frame->Some_0);
    let after = map_model(s, block).state;
    let m3 = after.mem;
    let last = held_after(s, block, held);
    let d = displaced(s, block).spec_ppn();
    let gone = displaced(s, block).spec_is_valid();
    let first = if s2.created {
        held.insert(s2.frame->Some_0)
    } else {
        held
    };
    let second = in_use_after(s, block, held);
    lemma_step(m0, s.alloc, root, i2);
    lemma_step(m2, s2.alloc, t1, i1);
    lemma_ppn_in_range(entry_of(m0, root, i2));
    lemma_ppn_in_range(entry_of(m2, t1, i1));
    if s2.created {
        lemma_alloc_is_exclusive(s.alloc, held);
        lemma_allocated_frame_in_range(s.alloc, held);
        lemma_table_frame(s2.frame->Some_0);
        assert(table_of(m2, t1) == zero_table());
    } else {
        assert(m2 == m0);
        assert(is_middle(s, t1));
    }
    assert(s2.alloc.exclusive(first));
    if s1.created {
        lemma_alloc_is_exclusive(s2.alloc, first);
        lemma_allocated_frame_in_range(s2.alloc, first);
        lemma_table_frame(s1.frame->Some_0);
        assert(!held.contains(t0));
    } else {
        assert(m1 == m2);
        if s2.created {
            assert(entry_of(m2, t1, i1) == PTE(0));
            assert(0u64 & 1 != 1) by (bit_vector);
        }
        assert(entry_of(m0, entry_of(m0, root, i2).spec_ppn(), i1).spec_is_valid());
        assert(held.contains(t0) && !is_middle(s, t0));
    }
    assert(0u64 & 1 != 1) by (bit_vector);
    assert(table_of(m3, root) == table_of(m2, root));
    assert(table_of(m3, t1) == table_of(m1, t1));
    assert(second.contains(t1) && second.contains(t0));
    assert forall|i: int| 0 <= i < 512 && i != i2 implies entry_of(m3, root, i) == entry_of(
        m0,
        root,
        i,
    ) by {}
    assert forall|i: int|
        0 <= i < 512 && (#[trigger] entry_of(m3, root, i)).spec_is_valid() implies ({
        let m = entry_of(m3, root, i).spec_ppn();
        &&& m != root
        &&& last.contains(m)
        &&& m != t0
        &&& m == t1 || (entry_of(m0, root, i).spec_is_valid() && entry_of(m0, root, i).spec_ppn()
            == m && table_of(m3, m) == table_of(m0, m))
    }) by {
        let m = entry_of(m3, root, i).spec_ppn();
        if gone {
            assert(!is_middle(after, d));
        }
        if m != t1 {
            assert(i != i2);
            assert(entry_of(m0, root, i).spec_is_valid());
            assert(held.contains(m));
            assert(is_middle(s, m));
            assert(table_of(m2, m) == table_of(m0, m));
            assert(table_of(m1, m) == table_of(m2, m));
            assert(table_of(m3, m) == table_of(m1, m));
        }
    }
    assert forall|i: int, j: int|
        0 <= i < 512 && 0 <= j < 512 && entry_of(m3, root, i).spec_is_valid() && (
        #[trigger] entry_of(m3, entry_of(m3, root, i).spec_ppn(), j)).spec_is_valid() implies ({
        let leaf = entry_of(m3, entry_of(m3, root, i).spec_ppn(), j).spec_ppn();
        leaf != root && last.contains(leaf) && !is_middle(after, leaf)
    }) by {
        let m = entry_of(m3, root, i).spec_ppn();
        let leaf = entry_of(m3, m, j).spec_ppn();
        if gone {
            assert(!is_leaf(after, d));
        }
        if m == t1 {
            if j != i1 {
                assert(entry_of(m3, t1, j) == entry_of(m2, t1, j));
                if s2.created {
                    assert(entry_of(m2, t1, j) == PTE(0));
                } else {
                    assert(entry_of(m0, entry_of(m0, root, i2).spec_ppn(), j).spec_is_valid());
                }
            } else {
                assert(leaf == t0);
            }
        } else {
            assert(entry_of(m0, entry_of(m0, root, i).spec_ppn(), j).spec_is_valid());
        }
        assert(leaf == t0 || (held.contains(leaf) && !is_middle(s, leaf) && leaf != root));
        assert(leaf != root);
        assert(last.contains(leaf));
        if is_middle(after, leaf) {
            let k = choose|k: int|
                0 <= k < 512 && (#[trigger] entry_of(m3, root, k)).spec_is_valid() && entry_of(
                    m3,
                    root,
                    k,
                ).spec_ppn() == leaf;
            let mk = entry_of(m3, root, k).spec_ppn();
            assert(mk != t0);
            if mk != t1 {
                assert(is_middle(s, leaf));
            }
            assert(false);
        }
    }
}

/// What a request asks of its frames: an explicit target is held by the
/// caller; a displaced frame is held, is not the new target, and holds no
/// table of the trie.
pub open spec fn admissible(s: EngineModel, block: MapBlock, held: Set<Frame>) -> bool {
    &&& block.map_type matches MapType::UseFrame(f) ==> held.contains(f)
    &&& displaced(s, block).spec_is_valid() ==> held.contains(displaced(s, block).spec_ppn())
        && block.map_type != MapType::UseFrame(displaced(s, block).spec_ppn()) && !is_table(
        map_model(s, block).state,
        displaced(s, block).spec_ppn(),
    )
}

/// The ledger when a request reaches the leaf table: the ledger before,
/// and the frames of the tables made on the way.
pub open spec fn owned_before_leaf(s: EngineModel, block: MapBlock) -> Set<u64> {
    let idx = block.vpn.spec_vpns();
    let s2 = step(s.mem, s.alloc, s.root, idx.level2 as int);
    let s1 = step(s2.mem, s2.alloc, table_frame(s2.frame->Some_0), idx.level1 as int);
    owned_after(owned_after(s.owned, s2), s1)
}

/// By how many frames a request makes the ledger grow: one for each table
/// made, one for an explicit target that is new to the ledger, less one for
/// a displaced frame that was in it.
pub open spec fn ledger_delta(s: EngineModel, block: MapBlock) -> int {
    let owned1 = owned_before_leaf(s, block);
    let d = displaced(s, block);
    let struck = d.spec_is_valid() && owned1.contains(d.spec_ppn().0);
    let kept = if d.spec_is_valid() {
        owned1.remove(d.spec_ppn().0)
    } else {
        owned1
    };
    let entered = block.map_type matches MapType::UseFrame(f) && !kept.contains(f.0);
    tables_made(s, block) + (if entered {
        1int
    } else {
        0int
    }) - (if struck {
        1int
    } else {
        0int
    })
}

/// Every request that succeeds changes the size of a sound ledger by
/// exactly `ledger_delta`: the tables it made are new to the ledger, a
/// displaced frame leaves it, an explicit target enters it.
pub proof fn lemma_map_counts(s: EngineModel, block: MapBlock, held: Set<Frame>)
    requires
        map_model(s, block).result is Ok,
        s.alloc.exclusive(held),
        ledger_within(s.owned, held),
    ensures
        map_model(s, block).state.owned.finite(),
        map_model(s, block).state.owned.len() == s.owned.len() + ledger_delta(s, block),
{
    let idx = block.vpn.spec_vpns();
    let s2 = step(s.mem, s.alloc, s.root, idx.level2 as int);
    let owned2 = owned_after(s.owned, s2);
    let first = if s2.created {
        held.insert(s2.frame->Some_0)
    } else {
        held
    };
    if s2.created {
        lemma_alloc_is_exclusive(s.alloc, held);
        let f = s2.frame->Some_0;
        assert(Frame(f.0) == f);
        assert(!s.owned.contains(f.0));
    }
    assert(ledger_within(owned2, first)) by {
        assert forall|x: u64| #[trigger] owned2.contains(x) implies first.contains(Frame(x)) by {
            if s.owned.contains(x) {
                assert(held.contains(Frame(x)));
            }
        }
    }
    let s1 = step(s2.mem, s2.alloc, table_frame(s2.frame->Some_0), idx.level1 as int);
    let owned1 = owned_after(owned2, s1);
    if s1.created {
        lemma_alloc_is_exclusive(s2.alloc, first);
        let f = s1.frame->Some_0;
        assert(Frame(f.0) == f);
        assert(!owned2.contains(f.0));
    }
    assert(owned1.finite() && owned1.len() == s.owned.len() + tables_made(s, block));
    assert(owned1 == owned_before_leaf(s, block));
}

/// Requests served one after the other; the first that fails ends it.
pub open spec fn requests_model(s: EngineModel, blocks: Seq<MapBlock>) -> MapOutcome
    decreases blocks.len(),
{
    if blocks.len() == 0 {
        MapOutcome { result: Ok(()), state: s }
    } else {
        let before = requests_model(s, blocks.drop_last());
        if before.result is Err {
            before
        } else {
            map_model(before.state, blocks.last())
        }
    }
}

/// The frames held by callers after a run of requests.
pub open spec fn requests_held(s: EngineModel, blocks: Seq<MapBlock>, held: Set<Frame>) -> Set<
    Frame,
>
    decreases blocks.len(),
{
    if blocks.len() == 0 {
        held
    } else {
        held_after(
            requests_model(s, blocks.drop_last()).state,
            blocks.last(),
            requests_held(s, blocks.drop_last(), held),
        )
    }
}

/// By how many frames a run of requests makes the ledger grow.
pub open spec fn requests_delta(s: EngineModel, blocks: Seq<MapBlock>) -> int
    decreases blocks.len(),
{
    if blocks.len() == 0 {
        0
    } else {
        requests_delta(s, blocks.drop_last()) + ledger_delta(
            requests_model(s, blocks.drop_last()).state,
            blocks.last(),
        )
    }
}

/// Every request of a run is admissible when its turn comes.
pub open spec fn requests_admissible(s: EngineModel, blocks: Seq<MapBlock>, held: Set<Frame>) -> bool
    decreases blocks.len(),
{
    blocks.len() == 0 || (requests_admissible(s, blocks.drop_last(), held) && admissible(
        requests_model(s, blocks.drop_last()).state,
        blocks.last(),
        requests_held(s, blocks.drop_last(), held),
    ))
}

/// Any run of admissible requests that all succeed keeps the engine sound
/// and its trie a tree, and leaves in the ledger as many frames as were in it, and one for each
/// table made, one for each explicit target new to it, less one for each
/// displaced frame that was in it. Teardown releases exactly these, each
/// once, and none of them was free.
pub proof fn lemma_requests_keep_engine_sound(
    s: EngineModel,
    blocks: Seq<MapBlock>,
    held: Set<Frame>,
)
    requires
        engine_inv(s, held),
        requests_model(s, blocks).result is Ok,
        requests_admissible(s, blocks, held),
    ensures
        engine_inv(requests_model(s, blocks).state, requests_held(s, blocks, held)),
        requests_model(s, blocks).state.owned.len() == s.owned.len() + requests_delta(s, blocks),
        trie_is_tree(s) ==> trie_is_tree(requests_model(s, blocks).state),
    decreases blocks.len(),
{
    if blocks.len() > 0 {
        let before = requests_model(s, blocks.drop_last());
        let held_before = requests_held(s, blocks.drop_last(), held);
        lemma_requests_keep_engine_sound(s, blocks.drop_last(), held);
        lemma_map_keeps_engine_sound(before.state, blocks.last(), held_before);
        lemma_map_counts(before.state, blocks.last(), held_before);
        if trie_is_tree(s) {
            lemma_map_keeps_tree(before.state, blocks.last(), held_before);
        }
    }
}

/// No table of the trie is reached through two different slots.
pub open spec fn trie_is_tree(s: EngineModel) -> bool {
    &&& forall|i: int, k: int|
        0 <= i < 512 && 0 <= k < 512 && i != k && (#[trigger] entry_of(
            s.mem,
            s.root,
            i,
        )).spec_is_valid() && (#[trigger] entry_of(s.mem, s.root, k)).spec_is_valid()
            ==> entry_of(s.mem, s.root, i).spec_ppn() != entry_of(s.mem, s.root, k).spec_ppn()
    &&& forall|i: int, j: int, k: int, l: int|
        0 <= i < 512 && 0 <= j < 512 && 0 <= k < 512 && 0 <= l < 512 && (i != k || j != l)
            && entry_of(s.mem, s.root, i).spec_is_valid() && entry_of(
            s.mem,
            s.root,
            k,
        ).spec_is_valid() && (#[trigger] entry_of(
            s.mem,
            entry_of(s.mem, s.root, i).spec_ppn(),
            j,
        )).spec_is_valid() && (#[trigger] entry_of(
            s.mem,
            entry_of(s.mem, s.root, k).spec_ppn(),
            l,
        )).spec_is_valid() ==> entry_of(s.mem, entry_of(s.mem, s.root, i).spec_ppn(), j).spec_ppn()
            != entry_of(s.mem, entry_of(s.mem, s.root, k).spec_ppn(), l).spec_ppn()
}

/// A request keeps the trie a tree: the tables it makes are new frames,
/// reached through one slot each.
pub proof fn lemma_map_keeps_tree(s: EngineModel, block: MapBlock, held: Set<Frame>)
    requires
        engine_inv(s, held),
        trie_is_tree(s),
        map_model(s, block).result is Ok,
    ensures
        trie_is_tree(map_model(s, block).state),
{
    lemma_sound_engine_has_chains(s, block, held);
    lemma_map_installs_path(s, block);
    let idx = block.vpn.spec_vpns();
    let i2 = idx.level2 as int;
    let i1 = idx.level1 as int;
    let root = s.root;
    let m0 = s.mem;
    let s2 = step(m0, s.alloc, root, i2);
    let m2 = s2.mem;
    let t1 = table_frame(s2.frame->Some_0);
    let s1 = step(m2, s2.alloc, t1, i1);
    let m1 = s1.mem;
    let t0 = table_frame(s1.frame->Some_0);
    let after = map_model(s, block).state;
    let m3 = after.mem;
    let first = if s2.created {
        held.insert(s2.frame->Some_0)
    } else {
        held
    };
    lemma_step(m0, s.alloc, root, i2);
    lemma_step(m2, s2.alloc, t1, i1);
    lemma_ppn_in_range(entry_of(m0, root, i2));
    lemma_ppn_in_range(entry_of(m2, t1, i1));
    assert(0u64 & 1 != 1) by (bit_vector);
    if s2.created {
        lemma_alloc_is_exclusive(s.alloc, held);
        lemma_allocated_frame_in_range(s.alloc, held);
        lemma_table_frame(s2.frame->Some_0);
        assert(table_of(m2, t1) == zero_table());
    } else {
        assert(m2 == m0);
        assert(is_middle(s, t1));
    }
    assert(s2.alloc.exclusive(first));
    if s1.created {
        lemma_alloc_is_exclusive(s2.alloc, first);
        lemma_allocated_frame_in_range(s2.alloc, first);
        lemma_table_frame(s1.frame->Some_0);
        assert(!held.contains(t0));
    } else {
        assert(m1 == m2);
        if s2.created {
            assert(entry_of(m2, t1, i1) == PTE(0));
        }
        assert(entry_of(m0, entry_of(m0, root, i2).spec_ppn(), i1).spec_is_valid());
    }
    assert(table_of(m3, root) == table_of(m2, root));
    assert(table_of(m3, t1) == table_of(m1, t1));
    assert forall|i: int|
        0 <= i < 512 && (#[trigger] entry_of(m3, root, i)).spec_is_valid() implies (i == i2
        && s2.created && entry_of(m3, root, i).spec_ppn() == t1) || (entry_of(
        m0,
        root,
        i,
    ).spec_is_valid() && entry_of(m0, root, i).spec_ppn() == entry_of(m3, root, i).spec_ppn()
        && held.contains(entry_of(m3, root, i).spec_ppn())) by {}
    assert forall|i: int, j: int|
        0 <= i < 512 && 0 <= j < 512 && entry_of(m3, root, i).spec_is_valid() && (
        #[trigger] entry_of(m3, entry_of(m3, root, i).spec_ppn(), j)).spec_is_valid() implies (i
        == i2 && j == i1 && s1.created && entry_of(
        m3,
        entry_of(m3, root, i).spec_ppn(),
        j,
    ).spec_ppn() == t0) || (entry_of(m0, root, i).spec_is_valid() && entry_of(
        m0,
        entry_of(m0, root, i).spec_ppn(),
        j,
    ).spec_is_valid() && entry_of(m0, entry_of(m0, root, i).spec_ppn(), j).spec_ppn() == entry_of(
        m3,
        entry_of(m3, root, i).spec_ppn(),
        j,
    ).spec_ppn() && held.contains(entry_of(m3, entry_of(m3, root, i).spec_ppn(), j).spec_ppn()))
    by {
        let m = entry_of(m3, root, i).spec_ppn();
        if i != i2 {
            assert(entry_of(m0, root, i).spec_is_valid() && entry_of(m0, root, i).spec_ppn() == m);
            assert(held.contains(m) && is_middle(s, m));
            assert(m != t1);
            assert(m != t0);
            assert(table_of(m2, m) == table_of(m0, m));
            assert(table_of(m1, m) == table_of(m2, m));
            assert(table_of(m3, m) == table_of(m1, m));
            assert(entry_of(m0, entry_of(m0, root, i).spec_ppn(), j).spec_is_valid());
        } else {
            assert(m == t1);
            if j != i1 {
                assert(entry_of(m3, t1, j) == entry_of(m2, t1, j));
                if s2.created {
                    assert(entry_of(m2, t1, j) == PTE(0));
                } else {
                    assert(entry_of(m0, entry_of(m0, root, i2).spec_ppn(), j).spec_is_valid());
                }
            } else if !s1.created {
                assert(entry_of(m0, entry_of(m0, root, i2).spec_ppn(), i1).spec_is_valid());
            }
        }
    }
}

/// Right after its root table was cleared, the trie is a tree.
pub proof fn lemma_empty_trie_is_tree(s: EngineModel)
    requires
        table_of(s.mem, s.root) == zero_table(),
    ensures
        trie_is_tree(s),
{
    assert(0u64 & 1 != 1) by (bit_vector);
    assert forall|i: int| 0 <= i < 512 implies !(#[trigger] entry_of(
        s.mem,
        s.root,
        i,
    )).spec_is_valid() by {}
}

/// Mapping one page leaves the walk for every other page as it was, in a
/// sound engine whose trie is a tree.
pub proof fn lemma_map_leaves_other_pages(
    s: EngineModel,
    block: MapBlock,
    held: Set<Frame>,
    other: VirtualPageNumber,
)
    requires
        engine_inv(s, held),
        trie_is_tree(s),
        map_model(s, block).result is Ok,
        other != block.vpn,
    ensures
        walk(map_model(s, block).state.mem, s.root, other) == walk(s.mem, s.root, other),
{
    if other.0 < VPN_LIMIT {
        lemma_sound_engine_has_chains(s, block, held);
        lemma_map_installs_path(s, block);
        lemma_indices_in_table(other);
        let idx = block.vpn.spec_vpns();
        let i2 = idx.level2 as int;
        let i1 = idx.level1 as int;
        let i0 = idx.level0 as int;
        let j2 = other.spec_vpns().level2 as int;
        let j1 = other.spec_vpns().level1 as int;
        let j0 = other.spec_vpns().level0 as int;
        let a: u64 = block.vpn.0;
        let b: u64 = other.0;
        assert(a < 0x800_0000 && b < 0x800_0000 && a != b ==> (a >> 18) != (b >> 18) || ((a >> 9)
            & 511) != ((b >> 9) & 511) || (a & 511) != (b & 511)) by (bit_vector);
        let root = s.root;
        let m0 = s.mem;
        let s2 = step(m0, s.alloc, root, i2);
        let m2 = s2.mem;
        let t1 = table_frame(s2.frame->Some_0);
        let s1 = step(m2, s2.alloc, t1, i1);
        let m1 = s1.mem;
        let t0 = table_frame(s1.frame->Some_0);
        let m3 = map_model(s, block).state.mem;
        let first = if s2.created {
            held.insert(s2.frame->Some_0)
        } else {
            held
        };
        lemma_step(m0, s.alloc, root, i2);
        lemma_step(m2, s2.alloc, t1, i1);
        lemma_ppn_in_range(entry_of(m0, root, i2));
        lemma_ppn_in_range(entry_of(m2, t1, i1));
        assert(0u64 & 1 != 1) by (bit_vector);
        if s2.created {
            lemma_alloc_is_exclusive(s.alloc, held);
            lemma_allocated_frame_in_range(s.alloc, held);
            lemma_table_frame(s2.frame->Some_0);
            assert(table_of(m2, t1) == zero_table());
        } else {
            assert(m2 == m0);
            assert(is_middle(s, t1));
        }
        assert(s2.alloc.exclusive(first));
        if s1.created {
            lemma_alloc_is_exclusive(s2.alloc, first);
            lemma_allocated_frame_in_range(s2.alloc, first);
            lemma_table_frame(s1.frame->Some_0);
            assert(!held.contains(t0));
            assert(table_of(m1, t0) == zero_table());
        } else {
            assert(m1 == m2);
            if s2.created {
                assert(entry_of(m2, t1, i1) == PTE(0));
            }
            assert(entry_of(m0, entry_of(m0, root, i2).spec_ppn(), i1).spec_is_valid());
        }
        assert(table_of(m3, root) == table_of(m2, root));
        assert(table_of(m3, t1) == table_of(m1, t1));
        let e2 = entry_of(m0, root, j2);
        let e2n = entry_of(m3, root, j2);
        if j2 != i2 {
            assert(e2n == e2);
            if e2.spec_is_valid() {
                let m = e2.spec_ppn();
                assert(held.contains(m) && m != root && is_middle(s, m));
                assert(m != t1);
                assert(m != t0);
                assert(table_of(m2, m) == table_of(m0, m));
                assert(table_of(m1, m) == table_of(m2, m));
                assert(table_of(m3, m) == table_of(m1, m));
                let e1 = entry_of(m0, m, j1);
                if e1.spec_is_valid() {
                    let l = e1.spec_ppn();
                    assert(entry_of(m0, entry_of(m0, root, j2).spec_ppn(), j1).spec_is_valid());
                    assert(held.contains(l) && l != root && !is_middle(s, l));
                    assert(l != t1);
                    assert(l != t0);
                    assert(table_of(m2, l) == table_of(m0, l));
                    assert(table_of(m1, l) == table_of(m2, l));
                    assert(table_of(m3, l) == table_of(m1, l));
                }
            }
        } else if j1 != i1 {
            if s2.created {
                assert(!e2.spec_is_valid());
                assert(entry_of(m3, t1, j1) == PTE(0));
            } else {
                assert(e2n == e2 && e2.spec_ppn() == t1);
                assert(entry_of(m3, t1, j1) == entry_of(m0, t1, j1));
                let e1 = entry_of(m0, t1, j1);
                if e1.spec_is_valid() {
                    let l = e1.spec_ppn();
                    assert(entry_of(m0, entry_of(m0, root, i2).spec_ppn(), j1).spec_is_valid());
                    assert(held.contains(l) && l != root && !is_middle(s, l));
                    assert(l != t1);
                    assert(l != t0);
                    assert(table_of(m2, l) == table_of(m0, l));
                    assert(table_of(m1, l) == table_of(m2, l));
                    assert(table_of(m3, l) == table_of(m1, l));
                }
            }
        } else {
            assert(j0 != i0);
            if s1.created {
                assert(entry_of(m3, t0, j0) == PTE(0));
                if !s2.created {
                    assert(!entry_of(m0, t1, i1).spec_is_valid());
                }
            } else {
                assert(entry_of(m3, t0, j0) == entry_of(m0, t0, j0));
            }
        }
    }
}

/// A request for a page inside the envelope succeeds whenever the allocator
/// can hand out two frames.
pub proof fn lemma_map_succeeds_with_two_frames(s: EngineModel, block: MapBlock)
    requires
        block.vpn.0 < VPN_LIMIT,
        s.alloc.next_frame() is Some,
        s.alloc.after_alloc().next_frame() is Some,
    ensures
        map_model(s, block).result is Ok,
{
}

/// Mapping a page in a sound engine and then walking the trie for it finds
/// the entry that was asked for: the target frame (its low 44 bits) with the
/// requested permissions and the valid flag.
pub proof fn lemma_map_round_trip(s: EngineModel, block: MapBlock, held: Set<Frame>)
    requires
        engine_inv(s, held),
        map_model(s, block).result is Ok,
    ensures
        walk(map_model(s, block).state.mem, s.root, block.vpn) == Some(block.leaf()),
        block.target().in_range() ==> block.leaf().spec_ppn() == block.target(),
        block.leaf().spec_flags() == block.permission.spec_union(Flags(1)),
{
    lemma_sound_engine_has_chains(s, block, held);
    lemma_map_then_walk(s, block);
}

/// In a sound engine, mapping a page to a frame `f1` and then to another
/// frame `f2` releases `f1` exactly once: the second request succeeds
/// without taking a frame, `f1` is what the allocator hands out next and is
/// in the ledger no longer, and the walk for the page finds `f2`.
pub proof fn lemma_remap_in_sound_engine(
    s: EngineModel,
    held: Set<Frame>,
    vpn: VirtualPageNumber,
    f1: Frame,
    perm1: Flags,
    f2: Frame,
    perm2: Flags,
)
    requires
        engine_inv(s, held),
        f1.in_range(),
        f2.in_range(),
        f1 != f2,
        map_model(s, (MapBlock { vpn, map_type: MapType::UseFrame(f1), permission: perm1 })).result
            is Ok,
    ensures
        ({
            let first = map_model(
                s,
                (MapBlock { vpn, map_type: MapType::UseFrame(f1), permission: perm1 }),
            ).state;
            let b2 = MapBlock { vpn, map_type: MapType::UseFrame(f2), permission: perm2 };
            let second = map_model(first, b2);
            &&& second.result is Ok
            &&& second.state.alloc == first.alloc.after_dealloc(f1)
            &&& second.state.alloc.next_frame() == Some(f1)
            &&& !second.state.owned.contains(f1.0)
            &&& walk(second.state.mem, s.root, vpn) == Some(b2.leaf())
            &&& b2.leaf().spec_ppn() == f2
            &&& b2.leaf().spec_flags() == perm2.spec_union(Flags(1))
        }),
{
    let b1 = MapBlock { vpn, map_type: MapType::UseFrame(f1), permission: perm1 };
    lemma_sound_engine_has_chains(s, b1, held);
    lemma_remap_releases_displaced(s, vpn, f1, perm1, f2, perm2);
    lemma_encode_decode(f2, perm2.spec_union(Flags(1)));
}

/// The valid entries among the first `n` slots of the table in `t` point at
/// these frames, in slot order.
pub open spec fn targets_upto(mem: MemoryModel, t: Frame, n: int) -> Seq<Frame>
    decreases n,
{
    if n <= 0 {
        Seq::empty()
    } else if entry_of(mem, t, n - 1).spec_is_valid() {
        targets_upto(mem, t, n - 1).push(entry_of(mem, t, n - 1).spec_ppn())
    } else {
        targets_upto(mem, t, n - 1)
    }
}

/// The tables reached through the first `n` slots of the root table: each
/// middle table, followed by the leaf tables below it.
pub open spec fn tables_upto(mem: MemoryModel, root: Frame, n: int) -> Seq<Frame>
    decreases n,
{
    if n <= 0 {
        Seq::empty()
    } else if entry_of(mem, root, n - 1).spec_is_valid() {
        tables_upto(mem, root, n - 1).push(entry_of(mem, root, n - 1).spec_ppn()) + targets_upto(
            mem,
            entry_of(mem, root, n - 1).spec_ppn(),
            512,
        )
    } else {
        tables_upto(mem, root, n - 1)
    }
}

/// The frames of all tables of the trie below `root`, the root table first.
pub open spec fn table_list(mem: MemoryModel, root: Frame) -> Seq<Frame> {
    seq![root] + tables_upto(mem, root, 512)
}

/// A view of the table at one physical address.
pub struct LevelPageTable {
    pub address: PhysicalAddress,
}

impl LevelPageTable {
    pub fn new(physical_address: PhysicalAddress) -> (r: LevelPageTable)
        ensures
            r.address == physical_address,
    {
        LevelPageTable { address: physical_address }
    }

    /// The frame that holds the table.
    pub open spec fn frame(&self) -> Frame {
        self.address.spec_into_frame()
    }

    /// The frame that slot `vpn` points at, if the entry there is valid.
    pub fn get(&self, mem: &PhysicalMemory, vpn: u64) -> (r: Option<Frame>)
        requires
            mem.wf(),
            vpn < 512,
        ensures
            r == if entry_of(mem@, self.frame(), vpn as int).spec_is_valid() {
                Some(entry_of(mem@, self.frame(), vpn as int).spec_ppn())
            } else {
                None
            },
    {
        let pte = mem.read(self.address.into_frame(), vpn);
        if !pte.is_valid() {
            return None;
        }
        Some(pte.ppn())
    }

    /// The frame that slot `vpn` points at; where the entry there is not
    /// valid, a frame is taken from the allocator, cleared, and installed.
    pub fn get_or_create(
        &self,
        mem: &mut PhysicalMemory,
        allocator: &mut FrameAllocator,
        vpn: u64,
    ) -> (r: Result<Frame, PageTableError>)
        requires
            old(mem).wf(),
            old(allocator)@.wf(),
            vpn < 512,
        ensures
            final(mem).wf(),
            final(allocator)@.wf(),
            final(mem)@ == step(old(mem)@, old(allocator)@, self.frame(), vpn as int).mem,
            final(allocator)@ == step(old(mem)@, old(allocator)@, self.frame(), vpn as int).alloc,
            r == match step(old(mem)@, old(allocator)@, self.frame(), vpn as int).frame {
                Some(f) => Ok::<Frame, PageTableError>(f),
                None => Err::<Frame, PageTableError>(PageTableError::NoMorePhysical),
            },
    {
        let table = self.address.into_frame();
        let pte = mem.read(table, vpn);
        if pte.is_valid() {
            Ok(pte.ppn())
        } else {
            match allocator.allocate() {
                None => Err(PageTableError::NoMorePhysical),
                Some(frame) => {
                    mem.zero(frame.base().into_frame());
                    mem.write(table, vpn, PTE::new(frame, Flags::v()));
                    Ok(frame)
                },
            }
        }
    }

    /// Puts `new_pte` in slot `vpn` and hands back the entry that was there.
    pub fn replace(&self, mem: &mut PhysicalMemory, vpn: u64, new_pte: PTE) -> (r: PTE)
        requires
            old(mem).wf(),
            vpn < 512,
        ensures
            final(mem).wf(),
            r == entry_of(old(mem)@, self.frame(), vpn as int),
            final(mem)@ == with_entry(old(mem)@, self.frame(), vpn as int, new_pte),
    {
        let table = self.address.into_frame();
        let displaced = mem.read(table, vpn);
        mem.write(table, vpn, new_pte);
        displaced
    }

    /// A copy of the 512 entries of the table.
    pub fn ptes(&self, mem: &PhysicalMemory) -> (r: Vec<PTE>)
        requires
            mem.wf(),
        ensures
            r@ == table_of(mem@, self.frame()),
            r@.len() == 512,
    {
        mem.table(self.address.into_frame())
    }
}

/// The root of one address space: the address of its top table and the
/// ledger of the frames it answers for.
pub struct RootPageTable {
    pub address: PhysicalAddress,
    frames: FrameLedger,
}

impl RootPageTable {
    /// The address of the root table.
    pub closed spec fn spec_address(&self) -> PhysicalAddress {
        self.address
    }

    /// The frame that holds the root table.
    pub open spec fn root(&self) -> Frame {
        self.spec_address().spec_into_frame()
    }

    /// The numbers of the frames in the ledger.
    pub closed spec fn owned(&self) -> Set<u64> {
        ledger_frames(self.frames)
    }

    /// The engine together with the memory and the allocator it works on.
    pub open spec fn model(&self, mem: MemoryModel, alloc: AllocatorModel) -> EngineModel {
        EngineModel { root: self.root(), owned: self.owned(), mem, alloc }
    }

    /// Takes one frame from the allocator for the root table, clears it, and
    /// enters it in the ledger. Fails exactly when the allocator has no frame.
    pub fn new(allocator: &mut FrameAllocator, mem: &mut PhysicalMemory) -> (r: Result<
        RootPageTable,
        PageTableError,
    >)
        requires
            old(allocator)@.wf(),
            old(mem).wf(),
        ensures
            final(allocator)@.wf(),
            final(mem).wf(),
            final(allocator)@ == old(allocator)@.after_alloc(),
            match old(allocator)@.next_frame() {
                None => r is Err && r->Err_0 == PageTableError::NoMorePhysical && final(mem)@
                    == old(mem)@,
                Some(f) => r is Ok && r->Ok_0.spec_address() == f.spec_base() && r->Ok_0.root()
                    == table_frame(f) && r->Ok_0.root().in_range() && r->Ok_0.owned()
                    == Set::<u64>::empty().insert(f.0) && final(mem)@ == with_zeroed(
                    old(mem)@,
                    table_frame(f),
                ),
            },
    {
        match allocator.allocate() {
            None => Err(PageTableError::NoMorePhysical),
            Some(frame) => {
                let mut list = ledger_new();
                ledger_insert(&mut list, frame.value());
                let address = frame.base();
                let root = address.into_frame();
                mem.zero(root);
                Ok(RootPageTable { address, frames: list })
            },
        }
    }

    /// Maps the page of `block`; a mapping that is there already is
    /// replaced and its frame released to the allocator.
    pub fn map(
        &mut self,
        allocator: &mut FrameAllocator,
        mem: &mut PhysicalMemory,
        block: MapBlock,
    ) -> (r: Result<(), PageTableError>)
        requires
            old(allocator)@.wf(),
            old(mem).wf(),
        ensures
            final(allocator)@.wf(),
            final(mem).wf(),
            final(self).spec_address() == old(self).spec_address(),
            r == map_model(old(self).model(old(mem)@, old(allocator)@), block).result,
            final(self).model(final(mem)@, final(allocator)@) == map_model(
                old(self).model(old(mem)@, old(allocator)@),
                block,
            ).state,
    {
        let vpns = match block.vpn.vpns() {
            Ok(v) => v,
            Err(e) => {
                return Err(e);
            },
        };
        let ghost s2 = step(mem@, allocator@, self.root(), vpns.level2 as int);

        let mut lpt = LevelPageTable::new(self.address);
        let mut fresh: bool = lpt.get(mem, vpns.get2()).is_none();
        let mut frame = match lpt.get_or_create(mem, allocator, vpns.get2()) {
            Ok(f) => f,
            Err(e) => {
                return Err(e);
            },
        };
        if fresh {
            ledger_insert(&mut self.frames, frame.value());
        }
        assert(self.owned() == owned_after(old(self).owned(), s2));
        let ghost s1 = step(mem@, allocator@, table_frame(frame), vpns.level1 as int);
        let ghost owned2 = self.owned();

        lpt = LevelPageTable::new(frame.base());
        fresh = lpt.get(mem, vpns.get1()).is_none();
        frame = match lpt.get_or_create(mem, allocator, vpns.get1()) {
            Ok(f) => f,
            Err(e) => {
                return Err(e);
            },
        };
        if fresh {
            ledger_insert(&mut self.frames, frame.value());
        }
        assert(self.owned() == owned_after(owned2, s1));

        lpt = LevelPageTable::new(frame.base());
        let target = match block.map_type {
            MapType::Identical => Frame(block.vpn.value()),
            MapType::UseFrame(f) => f,
        };
        let displaced = lpt.replace(
            mem,
            vpns.get0(),
            PTE::new(target, block.permission.union(Flags::v())),
        );
        if displaced.is_valid() {
            ledger_remove(&mut self.frames, displaced.ppn().value());
            allocator.dealloc(displaced.ppn());
        }
        match block.map_type {
            MapType::Identical => {},
            MapType::UseFrame(f) => {
                ledger_insert(&mut self.frames, f.value());
            },
        }
        Ok(())
    }

    /// The entry that the trie holds for `vpn`, if the walk to it meets
    /// valid entries only and the entry itself is valid.
    pub fn lookup(&self, mem: &PhysicalMemory, vpn: VirtualPageNumber) -> (r: Option<PTE>)
        requires
            mem.wf(),
        ensures
            r == walk(mem@, self.root(), vpn),
    {
        let vpns = match vpn.vpns() {
            Ok(v) => v,
            Err(_) => {
                return None;
            },
        };
        let root = self.address.into_frame();
        let e2 = mem.read(root, vpns.get2());
        if !e2.is_valid() {
            return None;
        }
        let e1 = mem.read(e2.ppn(), vpns.get1());
        if !e1.is_valid() {
            return None;
        }
        let e0 = mem.read(e1.ppn(), vpns.get0());
        if !e0.is_valid() {
            return None;
        }
        Some(e0)
    }

    /// The frames of all tables of the trie, the root table first, then each
    /// middle table followed by the leaf tables below it.
    pub fn table_frames(&self, mem: &PhysicalMemory) -> (r: Vec<Frame>)
        requires
            mem.wf(),
        ensures
            r@ == table_list(mem@, self.root()),
    {
        let root = self.address.into_frame();
        let mut out: Vec<Frame> = Vec::new();
        out.push(root);
        assert(out@ =~= seq![root] + tables_upto(mem@, root, 0));
        let mut i: u64 = 0;
        while i < 512
            invariant
                i <= 512,
                mem.wf(),
                root == self.root(),
                out@ == seq![root] + tables_upto(mem@, root, i as int),
            decreases 512 - i,
        {
            let e = mem.read(root, i);
            if e.is_valid() {
                let middle = e.ppn();
                out.push(middle);
                let ghost base = out@;
                assert(out@ =~= base + targets_upto(mem@, middle, 0));
                let mut j: u64 = 0;
                while j < 512
                    invariant
                        j <= 512,
                        mem.wf(),
                        out@ == base + targets_upto(mem@, middle, j as int),
                    decreases 512 - j,
                {
                    let leaf = mem.read(middle, j);
                    if leaf.is_valid() {
                        out.push(leaf.ppn());
                        assert(out@ =~= base + targets_upto(mem@, middle, j + 1));
                    }
                    j = j + 1;
                }
                assert(out@ =~= seq![root] + tables_upto(mem@, root, i + 1));
            }
            i = i + 1;
        }
        out
    }

    /// The value that selects this root table: mode 8 in bits 60..63,
    /// address-space 0 in bits 44..59, the root frame number below.
    pub fn satp_token(&self) -> (r: SatpToken)
        ensures
            r.0 == 0x8000_0000_0000_0000u64 | (self.root().0 & MAX_FRAME),
            self.root().in_range() ==> r.0 == (8u64 << 60) | self.root().0,
            self.root().in_range() ==> r.0 == 0x8000_0000_0000_0000u64 + self.root().0,
    {
        let mode: u64 = 8u64 << 60;
        let asid: u64 = 0;
        let root: u64 = self.address.into_frame().value();
        let ppn: u64 = root & MAX_FRAME;
        assert(((8u64 << 60) | 0u64 | (root & 0xFFF_FFFF_FFFF)) == (0x8000_0000_0000_0000u64 | (root
            & 0xFFF_FFFF_FFFF))) by (bit_vector);
        assert(root <= 0xFFF_FFFF_FFFF ==> (0x8000_0000_0000_0000u64 | (root & 0xFFF_FFFF_FFFF)) == (
        8u64 << 60) | root && (0x8000_0000_0000_0000u64 | (root & 0xFFF_FFFF_FFFF))
            == 0x8000_0000_0000_0000u64 + root) by (bit_vector);
        SatpToken(mode | asid | ppn)
    }

    /// Tears the address space down: every frame of the ledger is released
    /// to the allocator, each exactly once. The result lists them in the
    /// order in which they were released.
    pub fn release(self, allocator: &mut FrameAllocator) -> (freed: Vec<Frame>)
        ensures
            freed@.no_duplicates(),
            forall|f: Frame| freed@.contains(f) <==> self.owned().contains(f.0),
            self.owned().finite(),
            freed@.len() == self.owned().len(),
            final(allocator)@ == old(allocator)@.after_dealloc_all(freed@),
    {
        let order: Vec<u64> = ledger_items(&self.frames);
        proof {
            order@.unique_seq_to_set();
        }
        let mut freed: Vec<Frame> = Vec::new();
        let mut i: usize = 0;
        assert(allocator@.free + freed@ =~= allocator@.free);
        while i < order.len()
            invariant
                i <= order.len(),
                freed@.len() == i,
                forall|j: int| 0 <= j < i ==> (#[trigger] freed@[j]).0 == order@[j],
                allocator@ == old(allocator)@.after_dealloc_all(freed@),
            decreases order.len() - i,
        {
            let frame = Frame(order[i]);
            let ghost before = freed@;
            allocator.dealloc(frame);
            freed.push(frame);
            assert(old(allocator)@.free + before.push(frame) =~= (old(allocator)@.free
                + before).push(frame));
            i = i + 1;
        }
        assert forall|f: Frame| freed@.contains(f) <==> self.owned().contains(f.0) by {
            if freed@.contains(f) {
                let j = choose|j: int| 0 <= j < freed@.len() && freed@[j] == f;
                assert(order@[j] == f.0);
                assert(order@.contains(f.0));
                assert(order@.to_set().contains(f.0));
            }
            if self.owned().contains(f.0) {
                assert(order@.to_set().contains(f.0));
                assert(order@.contains(f.0));
                let j = choose|j: int| 0 <= j < order@.len() && order@[j] == f.0;
                assert(freed@[j] == f);
            }
        }
        freed
    }
}

} // verus!
