//! The kernel's own address space: which regions of the kernel image are
//! mapped, page by page, onto themselves, and with which permissions.
use vstd::prelude::*;

use crate::mm::frame_allocator::{
    align_up, lemma_alloc_is_exclusive, lemma_allocated_frame_in_range, AllocatorModel, FrameAllocator, FrameError,
};
use crate::mm::memory::{
    entry_of, table_of, tables_wf, with_zeroed, zero_table, MemoryModel, PhysicalMemory,
};
use crate::mm::sv39::page_table::{
    displaced, engine_inv, in_use_after, ledger_within, lemma_identity_map_counts,
    lemma_map_installs_path, lemma_map_round_trip, lemma_map_succeeds_with_two_frames,
    lemma_sound_engine_has_chains, lemma_table_frame, map_model, table_frame, walk,
    tables_made, EngineModel, MapBlock, MapOutcome, MapType, PageTableError, RootPageTable,
    SatpToken,
};
use crate::mm::sv39::page_table_entry::Flags;
use crate::mm::{Frame, VirtualPageNumber, MAX_FRAME, PAGE_OFFSET, PAGE_SIZE, VPN_LIMIT};

verus! {

/// The first byte after the physical memory that the allocator manages.
pub const MEMORY_END: u64 = 0x8800_0000;

/// Where the parts of the kernel image lie, as byte addresses: executable
/// text, read-only data, writable data, zero-initialised data, and the first
/// byte after the image.
#[derive(Clone, Copy, Debug, PartialEq, Eq, Structural)]
pub struct KernelLayout {
    pub stext: u64,
    pub etext: u64,
    pub srodata: u64,
    pub erodata: u64,
    pub sdata: u64,
    pub edata: u64,
    pub sbss: u64,
    pub ebss: u64,
    pub ekernel: u64,
}

impl KernelLayout {
    /// No region ends before it starts.
    pub open spec fn wf(self) -> bool {
        self.stext <= self.etext && self.srodata <= self.erodata && self.sdata <= self.edata
            && self.sbss <= self.ebss
    }

    /// Whether no region ends before it starts.
    pub fn is_wf(&self) -> (r: bool)
        ensures
            r == self.wf(),
    {
        self.stext <= self.etext && self.srodata <= self.erodata && self.sdata <= self.edata
            && self.sbss <= self.ebss
    }
}

/// Why the kernel's address space could not be set up.
#[derive(Clone, Copy, Debug, PartialEq, Eq, Structural)]
pub enum KernelError {
    /// The frame pool could not be built.
    Frame(FrameError),
    /// The page table could not be built.
    PageTable(PageTableError),
}

/// The number of whole pages between two byte addresses.
pub open spec fn pages_between(start: u64, end: u64) -> nat {
    ((end - start) / 4096) as nat
}

/// The request that maps page `i` of the region at `start` onto itself.
pub open spec fn page_block(start: u64, i: nat, permission: Flags) -> MapBlock {
    MapBlock {
        vpn: VirtualPageNumber(((start + i * 4096) as u64) >> 12),
        map_type: MapType::Identical,
        permission: permission.spec_union(Flags(1)),
    }
}

/// The first `pages` pages of the region at `start` mapped onto themselves,
/// lowest first; the first request that fails ends it.
pub open spec fn region_model(s: EngineModel, start: u64, pages: nat, permission: Flags) -> MapOutcome
    decreases pages,
{
    if pages == 0 {
        MapOutcome { result: Ok(()), state: s }
    } else {
        let before = region_model(s, start, (pages - 1) as nat, permission);
        if before.result is Err {
            before
        } else {
            map_model(before.state, page_block(start, (pages - 1) as nat, permission))
        }
    }
}

/// The four regions of the image mapped one after the other: text readable
/// and executable, read-only data readable, data and zero-initialised data
/// readable and writable. The first request that fails ends it.
pub open spec fn image_model(s: EngineModel, layout: KernelLayout) -> MapOutcome {
    let text = region_model(s, layout.stext, pages_between(layout.stext, layout.etext), Flags(10));
    let rodata = region_model(
        text.state,
        layout.srodata,
        pages_between(layout.srodata, layout.erodata),
        Flags(2),
    );
    let data = region_model(
        rodata.state,
        layout.sdata,
        pages_between(layout.sdata, layout.edata),
        Flags(6),
    );
    let bss = region_model(
        data.state,
        layout.sbss,
        pages_between(layout.sbss, layout.ebss),
        Flags(6),
    );
    if text.result is Err {
        text
    } else if rodata.result is Err {
        rodata
    } else if data.result is Err {
        data
    } else {
        bss
    }
}

/// The engine right after its root table was made in frame `f`.
pub open spec fn fresh_engine(mem: MemoryModel, alloc: AllocatorModel, f: Frame) -> EngineModel {
    EngineModel {
        root: table_frame(f),
        owned: Set::<u64>::empty().insert(f.0),
        mem: with_zeroed(mem, table_frame(f)),
        alloc: alloc.after_alloc(),
    }
}

/// Once a request of a region has failed, the requests after it are not made.
pub proof fn lemma_region_stops_at_failure(
    s: EngineModel,
    start: u64,
    failed: nat,
    pages: nat,
    permission: Flags,
)
    requires
        failed <= pages,
        region_model(s, start, failed, permission).result is Err,
    ensures
        region_model(s, start, pages, permission) == region_model(s, start, failed, permission),
    decreases pages,
{
    if failed < pages {
        lemma_region_stops_at_failure(s, start, failed, (pages - 1) as nat, permission);
    }
}

/// The number of tables made while the first `pages` pages of a region
/// are mapped.
pub open spec fn region_tables_made(s: EngineModel, start: u64, pages: nat, permission: Flags) -> nat
    decreases pages,
{
    if pages == 0 {
        0
    } else {
        region_tables_made(s, start, (pages - 1) as nat, permission) + tables_made(
            region_model(s, start, (pages - 1) as nat, permission).state,
            page_block(start, (pages - 1) as nat, permission),
        )
    }
}

/// The frames held by callers after the first `pages` pages of a region
/// were mapped, when `in_use` were held before.
pub open spec fn region_in_use(
    s: EngineModel,
    start: u64,
    pages: nat,
    permission: Flags,
    in_use: Set<Frame>,
) -> Set<Frame>
    decreases pages,
{
    if pages == 0 {
        in_use
    } else {
        in_use_after(
            region_model(s, start, (pages - 1) as nat, permission).state,
            page_block(start, (pages - 1) as nat, permission),
            region_in_use(s, start, (pages - 1) as nat, permission, in_use),
        )
    }
}

/// None of the first `pages` pages of a region is mapped when its turn comes.
pub open spec fn region_displaces_nothing(
    s: EngineModel,
    start: u64,
    pages: nat,
    permission: Flags,
) -> bool {
    forall|i: nat|
        i < pages ==> !(#[trigger] displaced(
            region_model(s, start, i, permission).state,
            page_block(start, i, permission),
        )).spec_is_valid()
}

/// Mapping a region of pages that were not mapped before onto themselves
/// adds to the ledger exactly one frame for each table made on the way, each
/// of them handed out by the allocator and held by nobody else.
pub proof fn lemma_region_counts(
    s: EngineModel,
    start: u64,
    pages: nat,
    permission: Flags,
    in_use: Set<Frame>,
)
    requires
        region_model(s, start, pages, permission).result is Ok,
        s.alloc.exclusive(in_use),
        ledger_within(s.owned, in_use),
        region_displaces_nothing(s, start, pages, permission),
    ensures
        region_model(s, start, pages, permission).state.alloc.exclusive(
            region_in_use(s, start, pages, permission, in_use),
        ),
        ledger_within(
            region_model(s, start, pages, permission).state.owned,
            region_in_use(s, start, pages, permission, in_use),
        ),
        region_model(s, start, pages, permission).state.owned.len() == s.owned.len()
            + region_tables_made(s, start, pages, permission),
    decreases pages,
{
    if pages > 0 {
        let last = (pages - 1) as nat;
        let before = region_model(s, start, last, permission);
        lemma_region_counts(s, start, last, permission, in_use);
        assert(!displaced(before.state, page_block(start, last, permission)).spec_is_valid());
        lemma_identity_map_counts(
            before.state,
            page_block(start, last, permission),
            region_in_use(s, start, last, permission, in_use),
        );
    }
}

/// Tearing down an address space that was made in frame `f` and then had a
/// region of unmapped pages mapped onto themselves returns one frame for the
/// root table and one for each table made on the way, no more and no fewer:
/// that is how many frames the ledger holds, and teardown releases each
/// frame of the ledger once.
pub proof fn lemma_ledger_of_fresh_space(
    mem: MemoryModel,
    alloc: AllocatorModel,
    in_use: Set<Frame>,
    start: u64,
    pages: nat,
    permission: Flags,
)
    requires
        alloc.exclusive(in_use),
        alloc.next_frame() is Some,
        region_model(
            fresh_engine(mem, alloc, alloc.next_frame()->Some_0),
            start,
            pages,
            permission,
        ).result is Ok,
        region_displaces_nothing(
            fresh_engine(mem, alloc, alloc.next_frame()->Some_0),
            start,
            pages,
            permission,
        ),
    ensures
        region_model(
            fresh_engine(mem, alloc, alloc.next_frame()->Some_0),
            start,
            pages,
            permission,
        ).state.owned.len() == 1 + region_tables_made(
            fresh_engine(mem, alloc, alloc.next_frame()->Some_0),
            start,
            pages,
            permission,
        ),
{
    let f = alloc.next_frame()->Some_0;
    let s = fresh_engine(mem, alloc, f);
    lemma_alloc_is_exclusive(alloc, in_use);
    assert(Frame(f.0) == f);
    assert(ledger_within(s.owned, in_use.insert(f))) by {
        assert forall|x: u64| #[trigger] s.owned.contains(x) implies in_use.insert(f).contains(
            Frame(x),
        ) by {
            assert(x == f.0);
        }
    }
    lemma_region_counts(s, start, pages, permission, in_use.insert(f));
}

/// An engine is sound right after its root table was made: with a sound
/// record `held` for the allocator that handed out the root frame `f`, the
/// fresh engine is sound with respect to `held` and `f`.
pub proof fn lemma_fresh_engine_is_sound(
    mem: MemoryModel,
    alloc: AllocatorModel,
    held: Set<Frame>,
)
    requires
        tables_wf(mem),
        alloc.exclusive(held),
        alloc.next_frame() is Some,
    ensures
        engine_inv(
            fresh_engine(mem, alloc, alloc.next_frame()->Some_0),
            held.insert(alloc.next_frame()->Some_0),
        ),
{
    let f = alloc.next_frame()->Some_0;
    let s = fresh_engine(mem, alloc, f);
    lemma_alloc_is_exclusive(alloc, held);
    lemma_allocated_frame_in_range(alloc, held);
    lemma_table_frame(f);
    assert(Frame(f.0) == f);
    assert(table_of(s.mem, s.root) == zero_table());
    assert forall|i: int| 0 <= i < 512 implies !(#[trigger] entry_of(
        s.mem,
        s.root,
        i,
    )).spec_is_valid() by {
        assert(0u64 & 1 != 1) by (bit_vector);
    }
    assert(ledger_within(s.owned, held.insert(f))) by {
        assert forall|x: u64| #[trigger] s.owned.contains(x) implies held.insert(f).contains(
            Frame(x),
        ) by {
            assert(x == f.0);
        }
    }
}

/// The first request to a fresh table round-trips: when the allocator's
/// record is sound and it can hand out the root frame and two more, a request
/// for a page inside the envelope succeeds, and the walk for the page finds
/// the target frame with the requested permissions and the valid flag.
pub proof fn lemma_first_mapping_round_trip(
    mem: MemoryModel,
    alloc: AllocatorModel,
    held: Set<Frame>,
    block: MapBlock,
)
    requires
        tables_wf(mem),
        alloc.exclusive(held),
        alloc.next_frame() is Some,
        alloc.after_alloc().next_frame() is Some,
        alloc.after_alloc().after_alloc().next_frame() is Some,
        block.vpn.0 < VPN_LIMIT,
    ensures
        ({
            let s = fresh_engine(mem, alloc, alloc.next_frame()->Some_0);
            &&& map_model(s, block).result is Ok
            &&& walk(map_model(s, block).state.mem, s.root, block.vpn) == Some(block.leaf())
            &&& block.target().in_range() ==> block.leaf().spec_ppn() == block.target()
            &&& block.leaf().spec_flags() == block.permission.spec_union(Flags(1))
            &&& block.leaf().spec_is_valid()
        }),
{
    let s = fresh_engine(mem, alloc, alloc.next_frame()->Some_0);
    lemma_fresh_engine_is_sound(mem, alloc, held);
    lemma_map_succeeds_with_two_frames(s, block);
    lemma_map_round_trip(s, block, held.insert(alloc.next_frame()->Some_0));
    lemma_sound_engine_has_chains(s, block, held.insert(alloc.next_frame()->Some_0));
    lemma_map_installs_path(s, block);
}

/// The kernel's address space with the frame pool and the memory it is
/// built in.
pub struct Kernel {
    pub page_table: RootPageTable,
    pub frame_alloc: FrameAllocator,
    pub memory: PhysicalMemory,
}

impl Kernel {
    /// Builds the frame pool over what lies between the end of the image and
    /// the end of memory, and in it the page table that maps the image onto
    /// itself.
    pub fn new(layout: KernelLayout) -> (r: Result<Kernel, KernelError>)
        requires
            layout.wf(),
        ensures
            layout.ekernel > MEMORY_END <==> r is Err && r->Err_0 == KernelError::Frame(
                FrameError::Invalid,
            ),
            layout.ekernel <= MEMORY_END && align_up(layout.ekernel as int) + 4096 > MEMORY_END
                <==> r is Err && r->Err_0 == KernelError::Frame(FrameError::NoAligned),
            layout.ekernel <= MEMORY_END && align_up(layout.ekernel as int) + 4096 <= MEMORY_END
                ==> {
                let pool = AllocatorModel {
                    current: align_up(layout.ekernel as int) as u64,
                    end: MEMORY_END,
                    free: Seq::<Frame>::empty(),
                };
                let built = image_model(
                    fresh_engine(Map::empty(), pool, Frame(pool.current >> 12)),
                    layout,
                );
                match r {
                    Ok(k) => built.result is Ok && k.page_table.model(k.memory@, k.frame_alloc@)
                        == built.state && k.frame_alloc@.wf() && k.memory.wf(),
                    Err(e) => built.result is Err && e == KernelError::PageTable(
                        built.result->Err_0,
                    ),
                }
            },
    {
        let mut frame_alloc = match Kernel::init_frame_allocator(layout.ekernel) {
            Ok(a) => a,
            Err(e) => {
                return Err(KernelError::Frame(e));
            },
        };
        let mut memory = PhysicalMemory::new();
        match Kernel::init_kernel_page_table(layout, &mut frame_alloc, &mut memory) {
            Ok(page_table) => Ok(Kernel { page_table, frame_alloc, memory }),
            Err(e) => Err(KernelError::PageTable(e)),
        }
    }

    /// The frame pool over `[kernel_end, MEMORY_END)`.
    pub fn init_frame_allocator(kernel_end: u64) -> (r: Result<FrameAllocator, FrameError>)
        ensures
            kernel_end > MEMORY_END <==> r is Err && r->Err_0 == FrameError::Invalid,
            kernel_end <= MEMORY_END && align_up(kernel_end as int) + 4096 > MEMORY_END <==> r
                is Err && r->Err_0 == FrameError::NoAligned,
            r is Ok ==> r->Ok_0@ == (AllocatorModel {
                current: align_up(kernel_end as int) as u64,
                end: MEMORY_END,
                free: Seq::<Frame>::empty(),
            }) && r->Ok_0@.wf() && r->Ok_0@.next_frame() is Some,
    {
        FrameAllocator::new(kernel_end, MEMORY_END, kernel_end)
    }

    /// Maps every whole page of the byte range `[start, end)` onto itself,
    /// lowest first, with `permission` and the valid flag. Stops at the first
    /// request that fails and hands on its error.
    pub fn map_region(
        page_table: &mut RootPageTable,
        allocator: &mut FrameAllocator,
        mem: &mut PhysicalMemory,
        start: u64,
        end: u64,
        permission: Flags,
    ) -> (r: Result<(), PageTableError>)
        requires
            start <= end,
            old(allocator)@.wf(),
            old(mem).wf(),
        ensures
            final(allocator)@.wf(),
            final(mem).wf(),
            final(page_table).spec_address() == old(page_table).spec_address(),
            r == region_model(
                old(page_table).model(old(mem)@, old(allocator)@),
                start,
                pages_between(start, end),
                permission,
            ).result,
            final(page_table).model(final(mem)@, final(allocator)@) == region_model(
                old(page_table).model(old(mem)@, old(allocator)@),
                start,
                pages_between(start, end),
                permission,
            ).state,
    {
        let ghost s = page_table.model(mem@, allocator@);
        let count: u64 = (end - start) / PAGE_SIZE;
        let mut i: u64 = 0;
        while i < count
            invariant
                i <= count,
                start <= end,
                count == (end - start) / 4096,
                page_table.spec_address() == old(page_table).spec_address(),
                s == old(page_table).model(old(mem)@, old(allocator)@),
                allocator@.wf(),
                mem.wf(),
                region_model(s, start, i as nat, permission).result is Ok,
                page_table.model(mem@, allocator@) == region_model(
                    s,
                    start,
                    i as nat,
                    permission,
                ).state,
            decreases count - i,
        {
            let vpn: u64 = (start + i * PAGE_SIZE) >> PAGE_OFFSET;
            let block = MapBlock::new(vpn, MapType::Identical, permission.union(Flags::v()));
            assert(block == page_block(start, i as nat, permission));
            match page_table.map(allocator, mem, block) {
                Ok(()) => {},
                Err(e) => {
                    proof {
                        lemma_region_stops_at_failure(
                            s,
                            start,
                            (i + 1) as nat,
                            count as nat,
                            permission,
                        );
                    }
                    return Err(e);
                },
            }
            i = i + 1;
        }
        Ok(())
    }

    /// Makes a root table and maps the four regions of the image onto
    /// themselves. Fails when the allocator gives out, for the root table or
    /// for a table on the way, or when a page of the image lies outside the
    /// envelope of virtual addresses.
    pub fn init_kernel_page_table(
        layout: KernelLayout,
        allocator: &mut FrameAllocator,
        mem: &mut PhysicalMemory,
    ) -> (r: Result<RootPageTable, PageTableError>)
        requires
            layout.wf(),
            old(allocator)@.wf(),
            old(mem).wf(),
        ensures
            final(allocator)@.wf(),
            final(mem).wf(),
            match old(allocator)@.next_frame() {
                None => r is Err && r->Err_0 == PageTableError::NoMorePhysical && final(mem)@
                    == old(mem)@ && final(allocator)@ == old(allocator)@,
                Some(f) => {
                    let built = image_model(fresh_engine(old(mem)@, old(allocator)@, f), layout);
                    &&& final(mem)@ == built.state.mem
                    &&& final(allocator)@ == built.state.alloc
                    &&& match r {
                        Ok(t) => built.result is Ok && t.model(final(mem)@, final(allocator)@)
                            == built.state,
                        Err(e) => built.result == Err::<(), PageTableError>(e),
                    }
                },
            },
    {
        let mut rpt = match RootPageTable::new(allocator, mem) {
            Ok(t) => t,
            Err(e) => {
                return Err(e);
            },
        };
        let rx = Flags::x().union(Flags::r());
        let ro = Flags::r();
        let rw = Flags::w().union(Flags::r());
        assert(8u8 | 2u8 == 10u8 && 4u8 | 2u8 == 6u8) by (bit_vector);
        match Kernel::map_region(&mut rpt, allocator, mem, layout.stext, layout.etext, rx) {
            Ok(()) => {},
            Err(e) => {
                return Err(e);
            },
        }
        match Kernel::map_region(&mut rpt, allocator, mem, layout.srodata, layout.erodata, ro) {
            Ok(()) => {},
            Err(e) => {
                return Err(e);
            },
        }
        match Kernel::map_region(&mut rpt, allocator, mem, layout.sdata, layout.edata, rw) {
            Ok(()) => {},
            Err(e) => {
                return Err(e);
            },
        }
        match Kernel::map_region(&mut rpt, allocator, mem, layout.sbss, layout.ebss, rw) {
            Ok(()) => {},
            Err(e) => {
                return Err(e);
            },
        }
        Ok(rpt)
    }

    /// The value that switches translation to the kernel's address space.
    pub fn satp_token(&self) -> (r: SatpToken)
        ensures
            r.0 == 0x8000_0000_0000_0000u64 | (self.page_table.root().0 & MAX_FRAME),
    {
        self.page_table.satp_token()
    }
}

} // verus!
