//! The hardware page-table entry: a frame number in bits 10..53 above eight
//! flag bits.
use vstd::prelude::*;

use crate::mm::{Frame, MAX_FRAME};

verus! {

/// A set of the eight entry flags, one bit each:
/// V = 1, R = 2, W = 4, X = 8, U = 16, G = 32, A = 64, D = 128.
#[derive(Clone, Copy, Debug, PartialEq, Eq, Structural)]
pub struct Flags(pub u8);

impl Flags {
    /// The empty set.
    pub fn empty() -> (r: Flags)
        ensures
            r.0 == 0,
    {
        Flags(0)
    }

    /// V: the entry is valid.
    pub fn v() -> (r: Flags)
        ensures
            r.0 == 1,
    {
        Flags(1)
    }

    /// R: the page may be read.
    pub fn r() -> (r: Flags)
        ensures
            r.0 == 2,
    {
        Flags(2)
    }

    /// W: the page may be written.
    pub fn w() -> (r: Flags)
        ensures
            r.0 == 4,
    {
        Flags(4)
    }

    /// X: the page may be executed.
    pub fn x() -> (r: Flags)
        ensures
            r.0 == 8,
    {
        Flags(8)
    }

    /// U: the page is open to user mode.
    pub fn u() -> (r: Flags)
        ensures
            r.0 == 16,
    {
        Flags(16)
    }

    /// G: the mapping is global.
    pub fn g() -> (r: Flags)
        ensures
            r.0 == 32,
    {
        Flags(32)
    }

    /// A: the page was accessed.
    pub fn a() -> (r: Flags)
        ensures
            r.0 == 64,
    {
        Flags(64)
    }

    /// D: the page was written to.
    pub fn d() -> (r: Flags)
        ensures
            r.0 == 128,
    {
        Flags(128)
    }

    /// The set with exactly the given bits.
    pub fn from_bits(bits: u8) -> (r: Flags)
        ensures
            r.0 == bits,
    {
        Flags(bits)
    }

    /// The bits of the set.
    pub fn bits(&self) -> (r: u8)
        ensures
            r == self.0,
    {
        self.0
    }

    /// The flags of `self` and of `other` together.
    pub open spec fn spec_union(self, other: Flags) -> Flags {
        Flags(self.0 | other.0)
    }

    /// Every flag of `other` is in `self`.
    pub open spec fn spec_contains(self, other: Flags) -> bool {
        self.0 & other.0 == other.0
    }

    /// The flags of `self` and of `other` together.
    pub fn union(self, other: Flags) -> (r: Flags)
        ensures
            r == self.spec_union(other),
    {
        Flags(self.0 | other.0)
    }

    /// Whether every flag of `other` is in `self`.
    pub fn contains(&self, other: Flags) -> (r: bool)
        ensures
            r == self.spec_contains(other),
    {
        self.0 & other.0 == other.0
    }
}

/// One 8-byte entry of a page table.
#[derive(Clone, Copy, Debug, PartialEq, Eq, Structural)]
pub struct PTE(pub u64);

impl PTE {
    /// The entry with no bit set: not valid, frame 0.
    pub open spec fn zero() -> PTE {
        PTE(0)
    }

    /// The entry that `new` packs from a frame and a flag set.
    pub open spec fn encode(frame: Frame, flags: Flags) -> PTE {
        PTE(((frame.0 & MAX_FRAME) << 10) | (flags.0 as u64))
    }

    /// The V bit is set.
    pub open spec fn spec_is_valid(self) -> bool {
        self.0 & 1 == 1
    }

    /// The frame field, bits 10..53.
    pub open spec fn spec_ppn(self) -> Frame {
        Frame((self.0 >> 10) & MAX_FRAME)
    }

    /// The flag field, bits 0..7.
    pub open spec fn spec_flags(self) -> Flags {
        Flags((self.0 & 0xff) as u8)
    }

    /// Packs a frame number and a flag set into an entry. Only the low 44
    /// bits of the frame number are kept. Unpacking gives both back.
    pub fn new(frame: Frame, flags: Flags) -> (r: PTE)
        ensures
            r == PTE::encode(frame, flags),
            r.spec_ppn() == Frame(frame.0 & MAX_FRAME),
            frame.in_range() ==> r.spec_ppn() == frame,
            r.spec_flags() == flags,
            r.spec_is_valid() == flags.spec_contains(Flags(1)),
    {
        let f: u64 = frame.0;
        let b: u8 = flags.0;
        let word: u64 = ((f & MAX_FRAME) << 10) | (b as u64);
        proof {
            lemma_encode_decode(frame, flags);
        }
        PTE(word)
    }

    /// Whether the valid flag is set.
    pub fn is_valid(&self) -> (r: bool)
        ensures
            r == self.spec_is_valid(),
    {
        self.0 & 1 == 1
    }

    /// The frame field of the entry, whether the entry is valid or not.
    pub fn ppn(&self) -> (r: Frame)
        ensures
            r == self.spec_ppn(),
            r.in_range(),
    {
        let w: u64 = self.0;
        assert(((w >> 10) & 0xFFF_FFFF_FFFF) <= 0xFFF_FFFF_FFFF) by (bit_vector);
        Frame((w >> 10) & MAX_FRAME)
    }

    /// The flag field of the entry.
    pub fn flags(&self) -> (r: Flags)
        ensures
            r == self.spec_flags(),
    {
        let w: u64 = self.0;
        assert((w & 0xff) <= 0xff) by (bit_vector);
        Flags((w & 0xff) as u8)
    }
}

/// Unpacking a packed entry gives back the flag set and the low 44 bits of
/// the frame number, and the entry is valid exactly if V was among the flags.
pub proof fn lemma_encode_decode(frame: Frame, flags: Flags)
    ensures
        PTE::encode(frame, flags).spec_ppn() == Frame(frame.0 & MAX_FRAME),
        frame.in_range() ==> PTE::encode(frame, flags).spec_ppn() == frame,
        PTE::encode(frame, flags).spec_flags() == flags,
        PTE::encode(frame, flags).spec_is_valid() == flags.spec_contains(Flags(1)),
        PTE::encode(frame, flags).spec_ppn().in_range(),
{
    let f: u64 = frame.0;
    let b: u8 = flags.0;
    assert((((((f & 0xFFF_FFFF_FFFF) << 10) | (b as u64)) >> 10) & 0xFFF_FFFF_FFFF) == (f
        & 0xFFF_FFFF_FFFF)) by (bit_vector);
    assert(f <= 0xFFF_FFFF_FFFF ==> (f & 0xFFF_FFFF_FFFF) == f) by (bit_vector);
    assert((f & 0xFFF_FFFF_FFFF) <= 0xFFF_FFFF_FFFF) by (bit_vector);
    assert((((((f & 0xFFF_FFFF_FFFF) << 10) | (b as u64)) & 0xff) as u8) == b) by (bit_vector);
    assert((((((f & 0xFFF_FFFF_FFFF) << 10) | (b as u64)) & 1) == 1) == ((b & 1) == 1))
        by (bit_vector);
}

} // verus!
