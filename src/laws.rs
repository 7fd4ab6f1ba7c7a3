//! Facts about the container that hold across calls.
use crate::chain::{count_nonzero, count_set};
use crate::storage::{ContigStorage, GrowBehavior, Key, MAX_CAPACITY};
use vstd::prelude::*;

verus! {

/// Every key that `add` handed out and that no `remove` of it, `clear`,
/// `invalidate_keys` or `assign_new_keys` has consumed since reaches the
/// value it was handed out with. `new`, `clear`, `drain` and
/// `invalidate_keys` start such a record `m` empty, `assign_new_keys` starts
/// it with the keys it returns, `add` extends it by the new key and
/// `remove` of a recorded key drops that key, each keeping `tracks(m)`.
pub proof fn lemma_tracked_keys_reach_values<T: Copy>(c: &ContigStorage<T>, m: Map<Key, T>)
    requires
        c.tracks(m),
    ensures
        forall|k: Key| #[trigger] m.contains_key(k) ==> c.value_of(k) == Some(m[k]),
{
}

/// Recorded keys reach pairwise different slots of the live slice, so each
/// recorded value stands in the slice once, at a position of its own.
pub proof fn lemma_tracked_keys_distinct_slots<T: Copy>(c: &ContigStorage<T>, m: Map<Key, T>)
    requires
        c.tracks(m),
    ensures
        forall|k: Key| #[trigger]
            m.contains_key(k) ==> {
                &&& c.lookup(c.index_of(k)) is Some
                &&& 0 <= c.lookup(c.index_of(k))->0 < c.spec_len()
                &&& c.live()[c.lookup(c.index_of(k))->0] == m[k]
            },
        forall|k1: Key, k2: Key|
            #[trigger] m.contains_key(k1) && #[trigger] m.contains_key(k2) && k1 != k2
                ==> c.lookup(c.index_of(k1)) != c.lookup(c.index_of(k2)),
{
    assert forall|k: Key| #[trigger] m.contains_key(k) implies 0 <= c.lookup(c.index_of(k))->0
        < c.spec_len() by {
        crate::chain::lemma_resolved_path_ends_live(
            c.cells(),
            c.spec_len() as int,
            c.index_of(k),
        );
    }
}

/// Under `Doubling`, `add` refuses only once the container holds
/// `MAX_CAPACITY` values.
pub proof fn lemma_doubling_accepts_below_max<T: Copy>(c: &ContigStorage<T>)
    requires
        c.wf(),
        c.policy() == GrowBehavior::Doubling,
    ensures
        c.refuses_add() <==> c.spec_len() == MAX_CAPACITY,
{
}

/// Where the indirect-only flags match the forwards, there are exactly as
/// many forwarding cells as set flags. `new`, `clear`, `assign_new_keys`
/// and `drain` leave them matched, `invalidate_keys` and `get_mut` keep
/// them so, `remove` keeps them so for a key whose index nothing forwards
/// to (every recorded key), and `add` keeps them so unless the boundary
/// cell it takes over is itself forwarded to.
pub proof fn lemma_forwards_counted_by_flags<T: Copy>(c: &ContigStorage<T>)
    requires
        c.flags_match_forwards(),
    ensures
        count_nonzero(c.cells()) == count_set(c.revoked()),
        forall|x: int| 0 <= x < c.spec_capacity() ==> (#[trigger] c.revoked()[x] <==> c.forwarded_to(x)),
{
}

/// A recorded key's index is forwarded to by nothing, so removing it keeps
/// the flags matched to the forwards.
pub proof fn lemma_tracked_key_not_forwarded_to<T: Copy>(
    c: &ContigStorage<T>,
    m: Map<Key, T>,
    k: Key,
)
    requires
        c.tracks(m),
        m.contains_key(k),
    ensures
        !c.forwarded_to(c.index_of(k)),
{
}

} // verus!
