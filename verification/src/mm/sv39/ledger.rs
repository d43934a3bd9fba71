//! The set of frame numbers that a root table answers for.
use vstd::prelude::*;

verus! {

/// The frames that a root table answers for, kept in a
/// `hashbrown::HashSet` of frame numbers.
#[verifier::external_body]
pub struct FrameLedger {
    frames: hashbrown::HashSet<u64>,
}

/// The frame numbers that the ledger's set holds.
pub uninterp spec fn ledger_frames(set: FrameLedger) -> Set<u64>;

/// `hashbrown::HashSet::new`: the set it returns holds nothing.
#[verifier::external_body]
pub(crate) fn ledger_new() -> (r: FrameLedger)
    ensures
        ledger_frames(r) == Set::<u64>::empty(),
{
    FrameLedger { frames: hashbrown::HashSet::new() }
}

/// `hashbrown::HashSet::insert`: afterwards the set holds what it held and
/// `frame`; the result says whether `frame` was new to it.
#[verifier::external_body]
pub(crate) fn ledger_insert(set: &mut FrameLedger, frame: u64) -> (r: bool)
    ensures
        ledger_frames(*final(set)) == ledger_frames(*old(set)).insert(frame),
        r == !ledger_frames(*old(set)).contains(frame),
{
    set.frames.insert(frame)
}

/// `hashbrown::HashSet::remove`: afterwards the set holds what it held but
/// `frame`; the result says whether `frame` was in it.
#[verifier::external_body]
pub(crate) fn ledger_remove(set: &mut FrameLedger, frame: u64) -> (r: bool)
    ensures
        ledger_frames(*final(set)) == ledger_frames(*old(set)).remove(frame),
        r == ledger_frames(*old(set)).contains(frame),
{
    set.frames.remove(&frame)
}

/// `hashbrown::HashSet::iter`: it visits every item of the set once, in an
/// order that nothing is said about.
#[verifier::external_body]
pub(crate) fn ledger_items(set: &FrameLedger) -> (r: Vec<u64>)
    ensures
        r@.no_duplicates(),
        r@.to_set() == ledger_frames(*set),
{
    set.frames.iter().copied().collect()
}

} // verus!
