//! Typed addresses and their bit-level decomposition.
use vstd::prelude::*;

use crate::mm::sv39::page_table::PageTableError;

pub mod frame_allocator;
pub mod memory;
pub mod sv39;

verus! {

/// Number of bits of the in-page byte offset.
pub const PAGE_OFFSET: u64 = 12;

/// Size of one page in bytes.
pub const PAGE_SIZE: u64 = 4096;

/// Number of entries in one table of the trie.
pub const PAGE_TABLE_LENGTH: u64 = 512;

/// Largest frame number the entry format can hold (44 bits).
pub const MAX_FRAME: u64 = 0xFFF_FFFF_FFFF;

/// Number of virtual page numbers inside the 39-bit envelope (27 bits).
pub const VPN_LIMIT: u64 = 0x800_0000;

/// A virtual byte address: 27 bits of page number above 12 bits of offset.
#[derive(Clone, Copy, Debug, PartialEq, Eq, Structural, PartialOrd, Ord)]
pub struct VirtualAddress(pub u64);

/// A virtual page number; 27 bits are meaningful.
#[derive(Clone, Copy, Debug, PartialEq, Eq, Structural, PartialOrd, Ord)]
pub struct VirtualPageNumber(pub u64);

/// A physical page index (no offset bits); 44 bits are meaningful.
#[derive(Clone, Copy, Debug, PartialEq, Eq, Structural, PartialOrd, Ord, Hash)]
pub struct Frame(pub u64);

/// A physical byte address: 44 bits of frame number above 12 bits of offset.
#[derive(Clone, Copy, Debug, PartialEq, Eq, Structural, PartialOrd, Ord)]
pub struct PhysicalAddress(pub u64);

/// The three per-level table indices of a virtual page number.
#[derive(Clone, Copy, Debug, PartialEq, Eq, Structural)]
pub struct VPNS {
    pub level0: u64,
    pub level1: u64,
    pub level2: u64,
}

impl VPNS {
    /// Every index addresses a slot of a 512-entry table.
    pub open spec fn wf(self) -> bool {
        self.level0 < 512 && self.level1 < 512 && self.level2 < 512
    }

    /// The page number the three indices stand for.
    pub open spec fn compose(self) -> u64 {
        (self.level2 << 18) | (self.level1 << 9) | self.level0
    }

    /// Index into the root table.
    pub fn get2(&self) -> (r: u64)
        ensures
            r == self.level2,
    {
        self.level2
    }

    /// Index into the middle table.
    pub fn get1(&self) -> (r: u64)
        ensures
            r == self.level1,
    {
        self.level1
    }

    /// Index into the leaf table.
    pub fn get0(&self) -> (r: u64)
        ensures
            r == self.level0,
    {
        self.level0
    }
}

impl VirtualPageNumber {
    pub fn value(&self) -> (r: u64)
        ensures
            r == self.0,
    {
        self.0
    }

    /// The indices of a page number inside the envelope.
    pub open spec fn spec_vpns(self) -> VPNS {
        VPNS { level0: self.0 & 511, level1: (self.0 >> 9) & 511, level2: self.0 >> 18 }
    }

    /// Splits the page number into its three 9-bit indices. A page number
    /// outside the 27-bit envelope is rejected, never truncated.
    pub fn vpns(&self) -> (r: Result<VPNS, PageTableError>)
        ensures
            self.0 >= VPN_LIMIT <==> r == Err::<VPNS, PageTableError>(
                PageTableError::InvalidVPN(self.0),
            ),
            self.0 < VPN_LIMIT <==> r == Ok::<VPNS, PageTableError>(self.spec_vpns()),
            r is Ok ==> r->Ok_0.wf() && r->Ok_0.compose() == self.0,
            r is Ok ==> r->Ok_0.level0 == self.0 % 512 && r->Ok_0.level1 == (self.0 / 512) % 512
                && r->Ok_0.level2 == self.0 / 262144,
    {
        let v: u64 = self.0;
        let level0: u64 = v & 511;
        let level1: u64 = (v >> 9) & 511;
        let level2: u64 = v >> 18;
        if level2 >= 512 {
            assert(v >= 0x800_0000) by (bit_vector)
                requires
                    (v >> 18) >= 512,
            ;
            Err(PageTableError::InvalidVPN(v))
        } else {
            assert(v < 0x800_0000 && (v & 511) < 512 && ((v >> 9) & 511) < 512 && (((v >> 18) << 18)
                | (((v >> 9) & 511) << 9) | (v & 511)) == v && (v & 511) == v % 512 && ((v >> 9)
                & 511) == (v / 512) % 512 && (v >> 18) == v / 262144) by (bit_vector)
                requires
                    (v >> 18) < 512,
            ;
            Ok(VPNS { level0, level1, level2 })
        }
    }
}

impl PhysicalAddress {
    pub fn value(&self) -> (r: u64)
        ensures
            r == self.0,
    {
        self.0
    }

    /// The frame that holds this address.
    pub open spec fn spec_into_frame(self) -> Frame {
        Frame(self.0 >> 12)
    }

    /// Drops the in-page offset.
    pub fn into_frame(self) -> (r: Frame)
        ensures
            r == self.spec_into_frame(),
            r.0 == self.0 / 4096,
    {
        let v: u64 = self.0;
        assert(v >> 12 == v / 4096) by (bit_vector);
        Frame(v >> PAGE_OFFSET)
    }
}

impl Frame {
    pub fn value(&self) -> (r: u64)
        ensures
            r == self.0,
    {
        self.0
    }

    /// The frame number fits the 44 bits of the entry format.
    pub open spec fn in_range(self) -> bool {
        self.0 <= MAX_FRAME
    }

    /// The byte address at which the frame starts. Only the low 44 bits of
    /// the frame number are kept.
    pub open spec fn spec_base(self) -> PhysicalAddress {
        PhysicalAddress((self.0 & MAX_FRAME) << 12)
    }

    /// The byte address at which the frame starts.
    pub fn base(self) -> (r: PhysicalAddress)
        ensures
            r == self.spec_base(),
            r.spec_into_frame() == Frame(self.0 & MAX_FRAME),
            r.spec_into_frame().in_range(),
            self.in_range() ==> r.0 == self.0 * 4096 && r.spec_into_frame() == self,
    {
        let v: u64 = self.0;
        assert(v <= 0xFFF_FFFF_FFFF ==> ((v & 0xFFF_FFFF_FFFF) << 12) == v * 4096 && (((v
            & 0xFFF_FFFF_FFFF) << 12) >> 12) == v) by (bit_vector);
        assert((((v & 0xFFF_FFFF_FFFF) << 12) >> 12) == (v & 0xFFF_FFFF_FFFF) && (v
            & 0xFFF_FFFF_FFFF) <= 0xFFF_FFFF_FFFF) by (bit_vector);
        PhysicalAddress((v & MAX_FRAME) << PAGE_OFFSET)
    }
}

impl VirtualAddress {
    pub fn value(&self) -> (r: u64)
        ensures
            r == self.0,
    {
        self.0
    }

    /// The address lies inside the 39-bit envelope.
    pub open spec fn in_envelope(self) -> bool {
        self.0 < 0x80_0000_0000
    }

    /// The page number of the page that holds this address.
    pub open spec fn spec_page_number(self) -> VirtualPageNumber {
        VirtualPageNumber(self.0 >> 12)
    }

    /// Drops the in-page offset.
    pub fn into_virtual_page_number(self) -> (r: VirtualPageNumber)
        ensures
            r == self.spec_page_number(),
            r.0 == self.0 / 4096,
    {
        let v: u64 = self.0;
        assert(v >> 12 == v / 4096) by (bit_vector);
        VirtualPageNumber(v >> PAGE_OFFSET)
    }

    /// The three table indices of the page that holds this address.
    pub fn vpns(self) -> (r: Result<VPNS, PageTableError>)
        ensures
            r == if self.in_envelope() {
                Ok::<VPNS, PageTableError>(self.spec_page_number().spec_vpns())
            } else {
                Err::<VPNS, PageTableError>(PageTableError::InvalidVPN(self.spec_page_number().0))
            },
            r is Ok ==> r->Ok_0.wf() && r->Ok_0.compose() == self.spec_page_number().0,
    {
        let v: u64 = self.0;
        assert(v < 0x80_0000_0000 <==> (v >> 12) < 0x800_0000) by (bit_vector);
        self.into_virtual_page_number().vpns()
    }
}

impl From<u64> for VirtualAddress {
    fn from(value: u64) -> (r: VirtualAddress) {
        VirtualAddress(value)
    }
}

impl vstd::std_specs::convert::FromSpecImpl<u64> for VirtualAddress {
    open spec fn obeys_from_spec() -> bool {
        true
    }

    open spec fn from_spec(value: u64) -> VirtualAddress {
        VirtualAddress(value)
    }
}

impl From<VirtualAddress> for u64 {
    fn from(value: VirtualAddress) -> (r: u64) {
        value.0
    }
}

impl vstd::std_specs::convert::FromSpecImpl<VirtualAddress> for u64 {
    open spec fn obeys_from_spec() -> bool {
        true
    }

    open spec fn from_spec(value: VirtualAddress) -> u64 {
        value.0
    }
}

impl From<u64> for VirtualPageNumber {
    fn from(value: u64) -> (r: VirtualPageNumber) {
        VirtualPageNumber(value)
    }
}

impl vstd::std_specs::convert::FromSpecImpl<u64> for VirtualPageNumber {
    open spec fn obeys_from_spec() -> bool {
        true
    }

    open spec fn from_spec(value: u64) -> VirtualPageNumber {
        VirtualPageNumber(value)
    }
}

impl From<VirtualPageNumber> for u64 {
    fn from(value: VirtualPageNumber) -> (r: u64) {
        value.0
    }
}

impl vstd::std_specs::convert::FromSpecImpl<VirtualPageNumber> for u64 {
    open spec fn obeys_from_spec() -> bool {
        true
    }

    open spec fn from_spec(value: VirtualPageNumber) -> u64 {
        value.0
    }
}

impl From<u64> for Frame {
    fn from(value: u64) -> (r: Frame) {
        Frame(value)
    }
}

impl vstd::std_specs::convert::FromSpecImpl<u64> for Frame {
    open spec fn obeys_from_spec() -> bool {
        true
    }

    open spec fn from_spec(value: u64) -> Frame {
        Frame(value)
    }
}

impl From<Frame> for u64 {
    fn from(value: Frame) -> (r: u64) {
        value.0
    }
}

impl vstd::std_specs::convert::FromSpecImpl<Frame> for u64 {
    open spec fn obeys_from_spec() -> bool {
        true
    }

    open spec fn from_spec(value: Frame) -> u64 {
        value.0
    }
}

impl From<u64> for PhysicalAddress {
    fn from(value: u64) -> (r: PhysicalAddress) {
        PhysicalAddress(value)
    }
}

impl vstd::std_specs::convert::FromSpecImpl<u64> for PhysicalAddress {
    open spec fn obeys_from_spec() -> bool {
        true
    }

    open spec fn from_spec(value: u64) -> PhysicalAddress {
        PhysicalAddress(value)
    }
}

impl From<PhysicalAddress> for u64 {
    fn from(value: PhysicalAddress) -> (r: u64) {
        value.0
    }
}

impl vstd::std_specs::convert::FromSpecImpl<PhysicalAddress> for u64 {
    open spec fn obeys_from_spec() -> bool {
        true
    }

    open spec fn from_spec(value: PhysicalAddress) -> u64 {
        value.0
    }
}

impl From<PhysicalAddress> for Frame {
    fn from(value: PhysicalAddress) -> (r: Frame) {
        value.into_frame()
    }
}

impl vstd::std_specs::convert::FromSpecImpl<PhysicalAddress> for Frame {
    open spec fn obeys_from_spec() -> bool {
        true
    }

    open spec fn from_spec(value: PhysicalAddress) -> Frame {
        value.spec_into_frame()
    }
}

impl From<Frame> for PhysicalAddress {
    fn from(value: Frame) -> (r: PhysicalAddress) {
        value.base()
    }
}

impl vstd::std_specs::convert::FromSpecImpl<Frame> for PhysicalAddress {
    open spec fn obeys_from_spec() -> bool {
        true
    }

    open spec fn from_spec(value: Frame) -> PhysicalAddress {
        value.spec_base()
    }
}

/// Splitting an address of the 39-bit envelope into three indices and joining
/// them again gives back its page number, and each index addresses a slot of
/// a 512-entry table.
pub proof fn lemma_vpn_round_trip(va: VirtualAddress)
    requires
        va.in_envelope(),
    ensures
        va.spec_page_number().spec_vpns().wf(),
        va.spec_page_number().spec_vpns().compose() == va.spec_page_number().0,
{
    let v: u64 = va.0;
    assert(v < 0x80_0000_0000 ==> (((v >> 12) >> 18) < 512 && ((v >> 12) & 511) < 512 && (((v
        >> 12) >> 9) & 511) < 512 && ((((v >> 12) >> 18) << 18) | ((((v >> 12) >> 9) & 511) << 9)
        | ((v >> 12) & 511)) == (v >> 12))) by (bit_vector);
}

} // verus!
