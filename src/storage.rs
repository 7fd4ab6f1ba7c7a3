//! The contiguous slot map.
use crate::bitfield::{bit_at, bits_filled, bits_of, clear_bits, grow_bits, set_bit};
use crate::cell::Item;
use crate::chain::{
    count_nonzero, count_set, forwards, lemma_count_nonzero_empty, lemma_count_nonzero_update,
    lemma_count_set_clear, lemma_count_set_update, lemma_path_between, lemma_path_cut,
    lemma_path_descends, lemma_path_predecessor, lemma_path_resolves_alike, lemma_path_transitive,
    lemma_resolved_path_ends_live, on_path, resolve, target,
};
use crate::entropy::random_word;
use vstd::prelude::*;

verus! {

/// Whether `add` may enlarge a full container.
#[derive(Debug, Clone, Copy, PartialEq, Eq, Structural)]
pub enum GrowBehavior {
    /// Grow to `(capacity + 2) * 2` slots, capped one below `usize::MAX`.
    Doubling,
    /// Never grow: a full container refuses further values.
    Fixed,
}

/// Returned by `add` when no slot is free and the container cannot grow.
#[derive(Debug, Clone, Copy, PartialEq, Eq, Structural)]
pub struct FullError;

/// An opaque handle to a stored value: its slot index, xor the container's
/// salt.
#[derive(Debug, Clone, Copy, PartialEq, Eq, Hash, Structural)]
pub struct Key(pub usize);

/// The largest capacity a container can have.
pub const MAX_CAPACITY: usize = usize::MAX - 1;

/// A slot map that keeps its live values packed in `values`, the prefix
/// `[0, len)` of its slots. Each slot at or past `len` is a cell in `links`:
/// `0` when empty, `t + 1` when it forwards a key to live slot `t`. A live
/// slot whose flag in `indirect_only` is set was filled from the boundary
/// and may be reached only through the cell that forwards to it. Cells at
/// or past `start_of_clean` are known to be empty.
///
/// Values and cell words are kept in separate arrays, so any `Copy` type
/// can be stored, whatever its size.
pub struct ContigStorage<T> {
    values: Vec<T>,
    links: Vec<Item>,
    start_of_clean: usize,
    salt: usize,
    indirect_only: bit_vec::BitVec,
    pub grow_behavior: GrowBehavior,
}

/// What remains of a container's values after `drain`: they come out in
/// slice order. The container itself was cleared when the drain was made,
/// so values left unread are discarded with the drain.
pub struct ContigDrain<T> {
    items: Vec<T>,
    pos: usize,
}

impl<T: Copy> ContigStorage<T> {
    /// The live values, in slot order.
    pub closed spec fn live(&self) -> Seq<T> {
        self.values@
    }

    /// Every slot's cell word; meaningful past the boundary only.
    pub closed spec fn cells(&self) -> Seq<usize> {
        Seq::new(self.links@.len(), |j: int| self.links@[j]@)
    }

    /// The indirect-only flag of each slot.
    pub closed spec fn revoked(&self) -> Seq<bool> {
        bits_of(self.indirect_only)
    }

    /// The word that keys are xored with.
    pub closed spec fn salt(&self) -> usize {
        self.salt
    }

    /// The growth policy.
    pub closed spec fn policy(&self) -> GrowBehavior {
        self.grow_behavior
    }

    /// Every cell from here on is known to be empty.
    pub closed spec fn clean_from(&self) -> nat {
        self.start_of_clean as nat
    }

    pub open spec fn spec_len(&self) -> nat {
        self.live().len()
    }

    pub open spec fn spec_capacity(&self) -> nat {
        self.cells().len()
    }

    /// The slot index that a key names.
    pub open spec fn index_of(&self, key: Key) -> int {
        (key.0 ^ self.salt()) as int
    }

    /// The key that names a slot index.
    pub open spec fn key_at(&self, i: int) -> Key {
        Key((i as usize) ^ self.salt())
    }

    /// Well-formedness: the boundary and the clean mark are ordered, cells
    /// in the live prefix and past the clean mark are empty, and every
    /// forward points strictly downwards.
    pub open spec fn wf(&self) -> bool {
        &&& self.spec_len() <= self.clean_from() <= self.spec_capacity()
        &&& self.spec_capacity() <= MAX_CAPACITY
        &&& self.revoked().len() == self.spec_capacity()
        &&& forall|j: int| 0 <= j < self.spec_len() ==> #[trigger] self.cells()[j] == 0
        &&& forall|j: int|
            self.clean_from() <= j < self.spec_capacity() ==> #[trigger] self.cells()[j] == 0
        &&& forall|j: int|
            self.spec_len() <= j < self.spec_capacity() && #[trigger] self.cells()[j] != 0
                ==> self.cells()[j] - 1 < j
    }

    /// The live slot that index `i` reaches: directly when `i` is live and
    /// not indirect-only, or by following forwards from a cell past the
    /// boundary.
    pub open spec fn lookup(&self, i: int) -> Option<int> {
        if 0 <= i < self.spec_len() && self.revoked()[i] {
            None
        } else {
            resolve(self.cells(), self.spec_len() as int, i)
        }
    }

    /// The value that a key reaches, if any.
    pub open spec fn value_of(&self, key: Key) -> Option<T> {
        match self.lookup(self.index_of(key)) {
            Some(s) => Some(self.live()[s]),
            None => None,
        }
    }

    /// `m` holds the keys handed out by `add` and not consumed since, each
    /// with its value. Each of them reaches its own value, no two reach one
    /// slot, and the forwards are laid out so that `add` and the removal of
    /// a key of `m` keep all this so: the forwards are disjoint and no key
    /// of `m` names a slot that is forwarded to.
    pub open spec fn tracks(&self, m: Map<Key, T>) -> bool {
        let links = self.cells();
        let n = self.spec_len() as int;
        &&& self.wf()
        &&& self.forwards_disjoint()
        &&& forall|k: Key| #[trigger]
            m.contains_key(k) ==> {
                &&& self.lookup(self.index_of(k)) is Some
                &&& self.live()[self.lookup(self.index_of(k))->0] == m[k]
                &&& forall|j: int|
                    #[trigger] forwards(links, n, j) ==> target(links, j) != self.index_of(k)
            }
        &&& forall|k1: Key, k2: Key|
            #[trigger] m.contains_key(k1) && #[trigger] m.contains_key(k2) && k1 != k2
                ==> self.lookup(self.index_of(k1)) != self.lookup(self.index_of(k2))
    }

    /// Whether some cell forwards to slot `x`.
    pub open spec fn forwarded_to(&self, x: int) -> bool {
        exists|j: int|
            #[trigger] forwards(self.cells(), self.spec_len() as int, j) && target(self.cells(), j)
                == x
    }

    /// Each forward ends at a live slot or at another forward, and no slot
    /// is forwarded to twice.
    pub open spec fn forwards_disjoint(&self) -> bool {
        let links = self.cells();
        let n = self.spec_len() as int;
        &&& forall|j: int| #[trigger]
            forwards(links, n, j) ==> target(links, j) < n || links[target(links, j)] != 0
        &&& forall|j1: int, j2: int|
            #[trigger] forwards(links, n, j1) && #[trigger] forwards(links, n, j2) && j1 != j2
                ==> target(links, j1) != target(links, j2)
    }

    /// The indirect-only flags are set on exactly the slots that a cell
    /// forwards to, the forwards are disjoint, and there are as many
    /// forwarding cells as set flags.
    pub open spec fn flags_match_forwards(&self) -> bool {
        &&& self.wf()
        &&& self.forwards_disjoint()
        &&& forall|x: int|
            0 <= x < self.spec_capacity() ==> (#[trigger] self.revoked()[x] <==> self.forwarded_to(
                x,
            ))
        &&& count_nonzero(self.cells()) == count_set(self.revoked())
    }

    /// Number of live values.
    pub fn len(&self) -> (r: usize)
        requires
            self.wf(),
        ensures
            r == self.spec_len(),
    {
        self.values.len()
    }

    /// Whether no value is live.
    pub fn is_empty(&self) -> (r: bool)
        requires
            self.wf(),
        ensures
            r == (self.spec_len() == 0),
    {
        self.values.len() == 0
    }

    /// Number of slots.
    pub fn capacity(&self) -> (r: usize)
        requires
            self.wf(),
        ensures
            r == self.spec_capacity(),
    {
        self.links.len()
    }

    /// A container with `capacity` empty slots (one fewer when `capacity`
    /// is `usize::MAX`) whose keys are xored with `salt`.
    pub fn with_salt(capacity: usize, grow_behavior: GrowBehavior, salt: usize) -> (r: Self)
        ensures
            r.wf(),
            r.spec_len() == 0,
            r.spec_capacity() == if capacity == usize::MAX { MAX_CAPACITY } else { capacity },
            r.salt() == salt,
            r.policy() == grow_behavior,
            r.tracks(Map::empty()),
            r.flags_match_forwards(),
            forall|key: Key| r.value_of(key) is None,
    {
        let cap: usize = if capacity == usize::MAX { MAX_CAPACITY } else { capacity };
        let mut links: Vec<Item> = Vec::new();
        let mut i: usize = 0;
        while i < cap
            invariant
                i <= cap,
                links@.len() == i,
                forall|j: int| 0 <= j < i ==> #[trigger] links@[j]@ == 0,
            decreases cap - i,
        {
            links.push(Item::nothing());
            i = i + 1;
        }
        let r = ContigStorage {
            values: Vec::new(),
            links,
            start_of_clean: 0,
            salt,
            indirect_only: bits_filled(cap, false),
            grow_behavior,
        };
        assert forall|key: Key| r.value_of(key) is None by {
            let i = r.index_of(key);
            if 0 <= i < cap {
                assert(r.cells()[i] == 0);
            }
        }
        proof {
            r.lemma_blank_flags();
        }
        r
    }

    /// A container with `capacity` empty slots (one fewer when `capacity`
    /// is `usize::MAX`) and a random salt.
    pub fn new(capacity: usize, grow_behavior: GrowBehavior) -> (r: Self)
        ensures
            r.wf(),
            r.spec_len() == 0,
            r.spec_capacity() == if capacity == usize::MAX { MAX_CAPACITY } else { capacity },
            r.policy() == grow_behavior,
            r.tracks(Map::empty()),
            r.flags_match_forwards(),
            forall|key: Key| r.value_of(key) is None,
    {
        Self::with_salt(capacity, grow_behavior, random_word())
    }

    /// The live slot that slot index `index` reaches, as `lookup` says.
    fn find_slot(&self, index: usize) -> (r: Option<usize>)
        requires
            self.wf(),
        ensures
            match r {
                Some(s) => self.lookup(index as int) == Some(s as int) && s < self.spec_len(),
                None => self.lookup(index as int) is None,
            },
    {
        let n = self.values.len();
        if index >= self.links.len() {
            return None;
        }
        if index < n {
            return match bit_at(&self.indirect_only, index) {
                Some(true) => None,
                _ => Some(index),
            };
        }
        let mut i = index;
        loop
            invariant
                self.wf(),
                n == self.spec_len(),
                n <= i < self.spec_capacity(),
                resolve(self.cells(), n as int, i as int) == self.lookup(index as int),
            decreases i,
        {
            assert(self.cells()[i as int] == self.links@[i as int]@);
            if self.links[i].is_nothing() {
                return None;
            }
            let t = self.links[i].get_indirection();
            assert(forwards(self.cells(), n as int, i as int));
            assert(resolve(self.cells(), n as int, i as int) == resolve(
                self.cells(),
                n as int,
                t as int,
            ));
            if t < n {
                return Some(t);
            }
            i = t;
        }
    }

    /// The value that `key` reaches.
    pub fn get(&self, key: &Key) -> (r: Option<&T>)
        requires
            self.wf(),
        ensures
            r is Some <==> self.value_of(*key) is Some,
            r is Some ==> *r->0 == self.value_of(*key)->0,
    {
        match self.find_slot(key.0 ^ self.salt) {
            Some(s) => Some(&self.values[s]),
            None => None,
        }
    }

    /// Where the value that `key` reaches stands in `get_slice()`.
    pub fn get_slice_index(&self, key: &Key) -> (r: Option<usize>)
        requires
            self.wf(),
        ensures
            match r {
                Some(s) => self.lookup(self.index_of(*key)) == Some(s as int),
                None => self.lookup(self.index_of(*key)) is None,
            },
    {
        self.find_slot(key.0 ^ self.salt)
    }

    /// The live values, packed.
    pub fn get_slice(&self) -> (r: &[T])
        requires
            self.wf(),
        ensures
            r@ == self.live(),
    {
        self.values.as_slice()
    }

    /// Whether `add` on this state refuses with `FullError`.
    pub open spec fn refuses_add(&self) -> bool {
        self.spec_len() == self.spec_capacity() && (self.policy() == GrowBehavior::Fixed
            || self.spec_capacity() == MAX_CAPACITY)
    }

    /// Whether `add` on this state first grows the container.
    pub open spec fn grows_on_add(&self) -> bool {
        self.spec_len() == self.spec_capacity() && !self.refuses_add()
    }

    /// Whether the boundary cell forwards to a live slot, which `add` then
    /// hands to the new value.
    pub open spec fn boundary_forwards(&self) -> bool {
        self.spec_len() < self.spec_capacity() && self.cells()[self.spec_len() as int] != 0
    }

    /// Stores `value` and returns its key. When the boundary cell is empty
    /// the value goes there; when it forwards to slot `t`, the value at `t`
    /// moves to the boundary and `value` takes slot `t`. A full container
    /// grows first under `Doubling`, and refuses otherwise.
    pub fn add(&mut self, value: T) -> (r: Result<Key, FullError>)
        requires
            old(self).wf(),
        ensures
            final(self).wf(),
            final(self).salt() == old(self).salt(),
            final(self).policy() == old(self).policy(),
            r is Err <==> old(self).refuses_add(),
            r is Err ==> *final(self) == *old(self),
            r is Ok ==> final(self).spec_capacity() == if old(self).grows_on_add() {
                grown_capacity(old(self).spec_capacity())
            } else {
                old(self).spec_capacity()
            },
            r is Ok && old(self).boundary_forwards() ==> {
                let t = target(old(self).cells(), old(self).spec_len() as int);
                &&& r == Ok::<Key, FullError>(old(self).key_at(t))
                &&& final(self).live() == old(self).live().update(t, value).push(old(self).live()[t])
            },
            r is Ok && !old(self).boundary_forwards() ==> {
                &&& r == Ok::<Key, FullError>(old(self).key_at(old(self).spec_len() as int))
                &&& final(self).live() == old(self).live().push(value)
            },
            r is Ok ==> final(self).value_of(r->Ok_0) == Some(value),
            r is Ok ==> final(self).live().to_multiset() == old(self).live().to_multiset().insert(
                value,
            ),
            old(self).flags_match_forwards() && !old(self).forwarded_to(old(self).spec_len() as int)
                ==> final(self).flags_match_forwards(),
            forall|m: Map<Key, T>| #[trigger]
                old(self).tracks(m) ==> match r {
                    Ok(k) => !m.contains_key(k) && final(self).tracks(m.insert(k, value)),
                    Err(_) => final(self).tracks(m),
                },
    {
        let ghost s0 = *self;
        let cap = self.links.len();
        if self.values.len() >= cap {
            if matches!(self.grow_behavior, GrowBehavior::Fixed) || cap == MAX_CAPACITY {
                return Err(FullError);
            }
            let new_cap: usize = if cap < MAX_CAPACITY / 2 - 2 {
                (cap + 2) * 2
            } else {
                MAX_CAPACITY
            };
            let mut i: usize = cap;
            assert forall|j: int| 0 <= j < cap implies #[trigger] self.links@[j]@ == 0 by {
                assert(self.cells()[j] == 0);
            }
            while i < new_cap
                invariant
                    cap <= i <= new_cap,
                    self.links@.len() == i,
                    forall|j: int| 0 <= j < i ==> #[trigger] self.links@[j]@ == 0,
                    self.values@ == s0.values@,
                    self.salt == s0.salt,
                    self.grow_behavior == s0.grow_behavior,
                    self.indirect_only == s0.indirect_only,
                decreases new_cap - i,
            {
                self.links.push(Item::nothing());
                i = i + 1;
            }
            grow_bits(&mut self.indirect_only, new_cap - cap, false);
            self.start_of_clean = self.values.len();
            proof {
                assert forall|m: Map<Key, T>| s0.tracks(m) implies self.tracks(m) by {
                    Self::lemma_grow_tracks(&s0, self, m);
                }
                if s0.flags_match_forwards() {
                    Self::lemma_grow_flags(&s0, self, (new_cap - cap) as nat);
                }
                assert(!self.forwarded_to(self.spec_len() as int));
            }
        }
        let ghost s1 = *self;
        let b = self.values.len();
        if self.start_of_clean < b + 1 {
            self.start_of_clean = b + 1;
        }
        assert(self.cells()[b as int] == self.links@[b as int]@);
        if self.links[b].is_nothing() {
            self.values.push(value);
            proof {
                vstd::seq_lib::to_multiset_build(s1.values@, value);
            }
            set_bit(&mut self.indirect_only, b, false);
            proof {
                assert forall|m: Map<Key, T>| s1.tracks(m) implies !m.contains_key(s1.key_at(b as int))
                    && self.tracks(m.insert(s1.key_at(b as int), value)) by {
                    Self::lemma_place_empty_tracks(&s1, self, m, value);
                }
                if s1.flags_match_forwards() {
                    Self::lemma_place_empty_flags(&s1, self, value);
                }
                lemma_xor_twice(b, self.salt);
                assert(self.lookup(b as int) == Some(b as int));
            }
            Ok(Key(b ^ self.salt))
        } else {
            let t = self.links[b].get_indirection();
            let moved = self.values[t];
            self.values.set(t, value);
            self.values.push(moved);
            proof {
                let before = s1.values@;
                broadcast use vstd::multiset::group_multiset_axioms;
                vstd::seq_lib::to_multiset_contains(before, moved);
                vstd::seq_lib::to_multiset_update(before, t as int, value);
                vstd::seq_lib::to_multiset_build(before.update(t as int, value), moved);
                assert(before.to_multiset().insert(value).remove(moved).insert(moved)
                    =~= before.to_multiset().insert(value));
            }
            self.links[b].set_nothing();
            assert(self.cells() =~= s1.cells().update(b as int, 0));
            set_bit(&mut self.indirect_only, b, false);
            set_bit(&mut self.indirect_only, t, false);
            proof {
                assert forall|m: Map<Key, T>| s1.tracks(m) implies !m.contains_key(s1.key_at(t as int))
                    && self.tracks(m.insert(s1.key_at(t as int), value)) by {
                    Self::lemma_place_forwarded_tracks(&s1, self, m, value);
                }
                if s1.flags_match_forwards() && !s1.forwarded_to(b as int) {
                    Self::lemma_place_forwarded_flags(&s1, self, value);
                }
                lemma_xor_twice(t, self.salt);
                assert(self.lookup(t as int) == Some(t as int));
            }
            Ok(Key(t ^ self.salt))
        }
    }

    /// Empties live slot `index`: the boundary value moves into it and the
    /// boundary cell forwards to it, or, when `index` is the last live
    /// slot, that slot becomes an empty cell.
    fn fill_hole(&mut self, index: usize)
        requires
            old(self).wf(),
            index < old(self).spec_len(),
        ensures
            final(self).live() == hole_filled(old(self).live(), index as int),
            final(self).cells() == if index + 1 == old(self).spec_len() {
                old(self).cells()
            } else {
                old(self).cells().update(old(self).spec_len() - 1, (index + 1) as usize)
            },
            final(self).revoked() == old(self).revoked().update(
                index as int,
                index + 1 != old(self).spec_len(),
            ),
            final(self).salt() == old(self).salt(),
            final(self).policy() == old(self).policy(),
            final(self).clean_from() == old(self).clean_from(),
    {
        let boundary = self.values.len() - 1;
        if boundary == index {
            self.values.pop();
            set_bit(&mut self.indirect_only, index, false);
        } else {
            let moved = self.values[boundary];
            self.values.set(index, moved);
            self.values.pop();
            set_bit(&mut self.indirect_only, index, true);
            self.links[boundary].set_indirection(index);
            assert(self.cells() =~= old(self).cells().update(boundary as int, (index + 1) as usize));
        }
    }

    /// Takes out the value that `key` reaches, as `get` finds it. Each
    /// forwarding cell passed on the way becomes empty and the slot it
    /// forwarded to loses its indirect-only flag; the emptied live slot is
    /// then refilled from the boundary. A key that reaches nothing changes
    /// nothing.
    pub fn remove(&mut self, key: &Key) -> (r: Option<T>)
        requires
            old(self).wf(),
        ensures
            final(self).wf(),
            r == old(self).value_of(*key),
            r is None ==> *final(self) == *old(self),
            r is Some ==> final(self).live() == hole_filled(
                old(self).live(),
                old(self).lookup(old(self).index_of(*key))->0,
            ),
            r is Some ==> final(self).live().to_multiset() == old(self).live().to_multiset().remove(
                r->0,
            ),
            r is Some ==> final(self).value_of(*key) is None,
            final(self).spec_capacity() == old(self).spec_capacity(),
            final(self).salt() == old(self).salt(),
            final(self).policy() == old(self).policy(),
            old(self).flags_match_forwards() && !old(self).forwarded_to(old(self).index_of(*key))
                ==> final(self).flags_match_forwards(),
            forall|m: Map<Key, T>| #[trigger]
                old(self).tracks(m) && m.contains_key(*key) ==> final(self).tracks(m.remove(*key)),
            forall|m: Map<Key, T>| old(self).tracks(m) && r is None ==> #[trigger] final(self).tracks(m),
    {
        let ghost s0 = *self;
        let index = key.0 ^ self.salt;
        let slot = match self.find_slot(index) {
            Some(s) => s,
            None => return None,
        };
        let n = self.values.len();
        let ghost l0 = self.cells();
        let ghost r0 = self.revoked();
        let ghost balanced = s0.flags_match_forwards() && !s0.forwarded_to(index as int);
        let mut i = index;
        if index < n {
            assert(slot == index);
        }
        assert forall|j: int| on_path(l0, n as int, index as int, j) implies j <= index by {
            lemma_path_descends(l0, n as int, index as int, j);
        }
        while i >= n
            invariant
                self.wf(),
                n == self.spec_len(),
                self.values == s0.values,
                self.salt == s0.salt,
                self.grow_behavior == s0.grow_behavior,
                self.start_of_clean == s0.start_of_clean,
                self.cells().len() == l0.len(),
                self.revoked().len() == r0.len(),
                i < n ==> i == slot,
                l0 == s0.cells(),
                r0 == s0.revoked(),
                n == s0.spec_len(),
                balanced ==> s0.flags_match_forwards() && count_nonzero(self.cells()) == count_set(
                    self.revoked(),
                ),
                on_path(l0, n as int, index as int, i as int),
                resolve(l0, n as int, i as int) == Some(slot as int),
                forall|j: int|
                    0 <= j < l0.len() ==> #[trigger] self.cells()[j] == if on_path(
                        l0,
                        n as int,
                        index as int,
                        j,
                    ) && i < j {
                        0
                    } else {
                        l0[j]
                    },
                forall|x: int|
                    0 <= x < r0.len() ==> #[trigger] self.revoked()[x] == if on_path(
                        l0,
                        n as int,
                        index as int,
                        x,
                    ) && i <= x < index {
                        false
                    } else {
                        r0[x]
                    },
            decreases i,
        {
            proof {
                lemma_path_descends(l0, n as int, index as int, i as int);
                assert(!(on_path(l0, n as int, index as int, i as int) && i < i));
                assert(forwards(l0, n as int, i as int));
            }
            let ghost before = self.cells();
            let ghost flags_before = self.revoked();
            assert(before[i as int] == self.links@[i as int]@);
            let t = self.links[i].get_indirection();
            assert(t as int == target(l0, i as int));
            assert(self.revoked()[t as int] == r0[t as int]);
            assert(l0 == s0.cells() && r0 == s0.revoked());
            assert(forwards(s0.cells(), s0.spec_len() as int, i as int));
            self.links[i].set_nothing();
            assert(self.cells() =~= before.update(i as int, 0));
            set_bit(&mut self.indirect_only, t, false);
            proof {
                if balanced {
                    assert(s0.forwarded_to(t as int));
                    assert(flags_before[t as int]);
                    lemma_count_nonzero_update(before, i as int, 0);
                    lemma_count_set_update(flags_before, t as int, false);
                }
                assert(on_path(l0, n as int, index as int, t as int)) by {
                    assert(on_path(l0, n as int, t as int, t as int));
                    assert(on_path(l0, n as int, i as int, t as int));
                    lemma_path_transitive(l0, n as int, index as int, i as int, t as int);
                }
                if t < n {
                    assert(resolve(l0, n as int, t as int) == Some(t as int));
                }
                assert forall|j: int| 0 <= j < l0.len() implies #[trigger] self.cells()[j] == if on_path(
                    l0,
                    n as int,
                    index as int,
                    j,
                ) && t < j {
                    0
                } else {
                    l0[j]
                } by {
                    if on_path(l0, n as int, index as int, j) && t < j && j < i {
                        lemma_path_between(l0, n as int, index as int, i as int, j);
                        lemma_path_descends(l0, n as int, t as int, j);
                    }
                }
                assert forall|x: int| 0 <= x < r0.len() implies #[trigger] self.revoked()[x] == if on_path(
                    l0,
                    n as int,
                    index as int,
                    x,
                ) && t <= x < index {
                    false
                } else {
                    r0[x]
                } by {
                    if on_path(l0, n as int, index as int, x) && t < x && x < i {
                        lemma_path_between(l0, n as int, index as int, i as int, x);
                        lemma_path_descends(l0, n as int, t as int, x);
                    }
                }
            }
            i = t;
        }
        let ghost w = self.cells();
        let ghost v = self.revoked();
        let value = self.values[slot];
        proof {
            if balanced {
                if index as int != slot as int {
                    lemma_path_descends(l0, n as int, index as int, slot as int);
                }
                assert(!v[slot as int]);
                assert(w[n - 1] == 0);
            }
        }
        self.fill_hole(slot);
        proof {
            if balanced {
                if slot + 1 != n {
                    lemma_count_nonzero_update(w, n - 1, (slot + 1) as usize);
                }
                lemma_count_set_update(v, slot as int, slot + 1 != n);
                Self::lemma_remove_flags(&s0, self, *key, w, v);
            }
            lemma_hole_filled_multiset(s0.live(), slot as int);
            if index as int != slot as int {
                lemma_path_descends(l0, n as int, index as int, slot as int);
                assert(w[index as int] == 0);
            }
            assert(self.lookup(index as int) is None);
            assert forall|m: Map<Key, T>| #[trigger]
                s0.tracks(m) && m.contains_key(*key) implies self.tracks(m.remove(*key)) by {
                Self::lemma_remove_tracks(&s0, self, m, *key, w, v);
            }
        }
        Some(value)
    }

    /// A mutable reference to the value that `key` reaches; nothing else
    /// changes.
    pub fn get_mut(&mut self, key: &Key) -> (r: Option<&mut T>)
        requires
            old(self).wf(),
        ensures
            final(self).wf(),
            old(self).flags_match_forwards() ==> final(self).flags_match_forwards(),
            r is Some <==> old(self).value_of(*key) is Some,
            match r {
                Some(x) => {
                    &&& *x == old(self).value_of(*key)->0
                    &&& final(self).live() == old(self).live().update(
                        old(self).lookup(old(self).index_of(*key))->0,
                        *final(x),
                    )
                    &&& final(self).cells() == old(self).cells()
                    &&& final(self).revoked() == old(self).revoked()
                    &&& final(self).salt() == old(self).salt()
                    &&& final(self).clean_from() == old(self).clean_from()
                    &&& final(self).policy() == old(self).policy()
                },
                None => *final(self) == *old(self),
            },
    {
        match self.find_slot(key.0 ^ self.salt) {
            Some(s) => Some(&mut self.values[s]),
            None => None,
        }
    }

    /// Each live value under the key that names its own slot.
    pub open spec fn direct_keys(&self) -> Map<Key, T> {
        Map::new(
            |k: Key| 0 <= self.index_of(k) < self.spec_len(),
            |k: Key| self.live()[self.index_of(k)],
        )
    }

    /// Empties the cells in `[from, start_of_clean)`.
    fn empty_cells_from(&mut self, from: usize)
        requires
            old(self).wf(),
            from <= old(self).clean_from(),
            forall|j: int| 0 <= j < from ==> #[trigger] old(self).cells()[j] == 0,
        ensures
            final(self).live() == old(self).live(),
            final(self).revoked() == old(self).revoked(),
            final(self).salt() == old(self).salt(),
            final(self).policy() == old(self).policy(),
            final(self).clean_from() == old(self).clean_from(),
            final(self).cells().len() == old(self).cells().len(),
            forall|j: int| 0 <= j < final(self).cells().len() ==> #[trigger] final(self).cells()[j] == 0,
    {
        let end = self.start_of_clean;
        let mut i = from;
        assert forall|j: int| 0 <= j < from implies #[trigger] self.links@[j]@ == 0 by {
            assert(self.cells()[j] == 0);
        }
        assert forall|j: int| end <= j < self.links@.len() implies #[trigger] self.links@[j]@ == 0 by {
            assert(self.cells()[j] == 0);
        }
        while i < end
            invariant
                from <= i <= end,
                end == old(self).start_of_clean,
                end <= self.links@.len(),
                self.links@.len() == old(self).links@.len(),
                forall|j: int| 0 <= j < i ==> #[trigger] self.links@[j]@ == 0,
                self.values == old(self).values,
                self.indirect_only == old(self).indirect_only,
                self.salt == old(self).salt,
                self.grow_behavior == old(self).grow_behavior,
                self.start_of_clean == old(self).start_of_clean,
                forall|j: int| end <= j < self.links@.len() ==> #[trigger] self.links@[j]@ == 0,
            decreases end - i,
        {
            self.links[i].set_nothing();
            i = i + 1;
        }
    }

    /// Removes every value and xors keys with `salt` from now on; only the
    /// cells below the clean mark are written. No key reaches anything
    /// afterwards.
    pub fn clear_with_salt(&mut self, salt: usize)
        requires
            old(self).wf(),
        ensures
            final(self).wf(),
            final(self).spec_len() == 0,
            final(self).spec_capacity() == old(self).spec_capacity(),
            final(self).salt() == salt,
            final(self).policy() == old(self).policy(),
            final(self).tracks(Map::empty()),
            final(self).flags_match_forwards(),
            forall|key: Key| #[trigger] final(self).value_of(key) is None,
    {
        self.empty_cells_from(0);
        self.values.clear();
        self.start_of_clean = 0;
        self.salt = salt;
        clear_bits(&mut self.indirect_only);
        proof {
            self.lemma_blank_flags();
        }
        assert forall|key: Key| #[trigger] self.value_of(key) is None by {
            let i = self.index_of(key);
            if 0 <= i < self.spec_capacity() {
                assert(self.cells()[i] == 0);
            }
        }
    }

    /// Removes every value and draws a new salt.
    pub fn clear(&mut self)
        requires
            old(self).wf(),
        ensures
            final(self).wf(),
            final(self).spec_len() == 0,
            final(self).spec_capacity() == old(self).spec_capacity(),
            final(self).policy() == old(self).policy(),
            final(self).tracks(Map::empty()),
            final(self).flags_match_forwards(),
            forall|key: Key| #[trigger] final(self).value_of(key) is None,
    {
        self.clear_with_salt(random_word());
    }

    /// Xors keys with `salt` from now on; the values and cells stay.
    pub fn invalidate_keys_with_salt(&mut self, salt: usize)
        requires
            old(self).wf(),
        ensures
            final(self).wf(),
            final(self).live() == old(self).live(),
            final(self).cells() == old(self).cells(),
            final(self).revoked() == old(self).revoked(),
            final(self).salt() == salt,
            final(self).policy() == old(self).policy(),
            forall|m: Map<Key, T>| #[trigger] old(self).tracks(m) ==> final(self).tracks(Map::empty()),
            old(self).flags_match_forwards() ==> final(self).flags_match_forwards(),
    {
        self.salt = salt;
    }

    /// Draws a new salt, so that keys handed out so far no longer count.
    pub fn invalidate_keys(&mut self)
        requires
            old(self).wf(),
        ensures
            final(self).wf(),
            final(self).live() == old(self).live(),
            final(self).cells() == old(self).cells(),
            final(self).revoked() == old(self).revoked(),
            final(self).policy() == old(self).policy(),
            forall|m: Map<Key, T>| #[trigger] old(self).tracks(m) ==> final(self).tracks(Map::empty()),
            old(self).flags_match_forwards() ==> final(self).flags_match_forwards(),
    {
        self.invalidate_keys_with_salt(random_word());
    }

    /// Drops every forwarding cell and every indirect-only flag, xors keys
    /// with `salt` from now on, and returns a fresh key for each live value
    /// in slice order. The values stay where they are.
    pub fn assign_new_keys_with_salt(&mut self, salt: usize) -> (r: Vec<Key>)
        requires
            old(self).wf(),
        ensures
            final(self).wf(),
            final(self).live() == old(self).live(),
            final(self).spec_capacity() == old(self).spec_capacity(),
            final(self).salt() == salt,
            final(self).policy() == old(self).policy(),
            r@.len() == final(self).spec_len(),
            forall|i: int| 0 <= i < r@.len() ==> #[trigger] r@[i] == final(self).key_at(i),
            forall|i: int| 0 <= i < r@.len() ==> #[trigger] final(self).value_of(r@[i]) == Some(
                final(self).live()[i],
            ),
            final(self).tracks(final(self).direct_keys()),
            final(self).flags_match_forwards(),
    {
        let n = self.values.len();
        self.empty_cells_from(n);
        self.start_of_clean = n;
        self.salt = salt;
        clear_bits(&mut self.indirect_only);
        let mut keys: Vec<Key> = Vec::new();
        let mut i: usize = 0;
        while i < n
            invariant
                i <= n,
                n == self.spec_len(),
                keys@.len() == i,
                self.salt == salt,
                forall|j: int| 0 <= j < i ==> #[trigger] keys@[j] == self.key_at(j),
            decreases n - i,
        {
            keys.push(Key(i ^ salt));
            i = i + 1;
        }
        proof {
            self.lemma_blank_flags();
            let dk = self.direct_keys();
            assert forall|j: int| 0 <= j < n implies #[trigger] self.lookup(j) == Some(j) by {}
            assert forall|j: int| 0 <= j < keys@.len() implies #[trigger] self.value_of(keys@[j]) == Some(
                self.live()[j],
            ) by {
                lemma_xor_twice(j as usize, salt);
            }
            assert forall|k1: Key, k2: Key|
                #[trigger] dk.contains_key(k1) && #[trigger] dk.contains_key(k2) && k1 != k2
                implies self.lookup(self.index_of(k1)) != self.lookup(self.index_of(k2)) by {
                lemma_xor_twice(k1.0, salt);
                lemma_xor_twice(k2.0, salt);
                assert(self.lookup(self.index_of(k1)) == Some(self.index_of(k1)));
                assert(self.lookup(self.index_of(k2)) == Some(self.index_of(k2)));
            }
            assert forall|k: Key| #[trigger] dk.contains_key(k) implies {
                &&& self.lookup(self.index_of(k)) is Some
                &&& self.live()[self.lookup(self.index_of(k))->0] == dk[k]
                &&& forall|j: int|
                    #[trigger] forwards(self.cells(), n as int, j) ==> target(self.cells(), j)
                        != self.index_of(k)
            } by {
                assert(self.lookup(self.index_of(k)) == Some(self.index_of(k)));
            }
        }
        keys
    }

    /// Drops every forwarding cell, draws a new salt, and returns a fresh
    /// key for each live value in slice order.
    pub fn assign_new_keys(&mut self) -> (r: Vec<Key>)
        requires
            old(self).wf(),
        ensures
            final(self).wf(),
            final(self).live() == old(self).live(),
            final(self).spec_capacity() == old(self).spec_capacity(),
            final(self).policy() == old(self).policy(),
            r@.len() == final(self).spec_len(),
            forall|i: int| 0 <= i < r@.len() ==> #[trigger] r@[i] == final(self).key_at(i),
            forall|i: int| 0 <= i < r@.len() ==> #[trigger] final(self).value_of(r@[i]) == Some(
                final(self).live()[i],
            ),
            final(self).tracks(final(self).direct_keys()),
            final(self).flags_match_forwards(),
    {
        self.assign_new_keys_with_salt(random_word())
    }

    /// Hands out the live values in slice order and clears the container
    /// at once, xoring keys with `salt` from now on.
    pub fn drain_with_salt(&mut self, salt: usize) -> (r: ContigDrain<T>)
        requires
            old(self).wf(),
        ensures
            r.wf(),
            r.remaining() == old(self).live(),
            final(self).wf(),
            final(self).spec_len() == 0,
            final(self).spec_capacity() == old(self).spec_capacity(),
            final(self).salt() == salt,
            final(self).policy() == old(self).policy(),
            final(self).tracks(Map::empty()),
            final(self).flags_match_forwards(),
            forall|key: Key| #[trigger] final(self).value_of(key) is None,
    {
        let n = self.values.len();
        let mut items: Vec<T> = Vec::new();
        let mut i: usize = 0;
        while i < n
            invariant
                i <= n,
                n == self.values@.len(),
                items@ == self.values@.subrange(0, i as int),
            decreases n - i,
        {
            items.push(self.values[i]);
            i = i + 1;
        }
        assert(items@ == self.values@.subrange(0, n as int));
        self.clear_with_salt(salt);
        ContigDrain { items, pos: 0 }
    }

    /// Hands out the live values in slice order and clears the container
    /// at once, with a new salt. Values the drain does not reach are
    /// discarded.
    pub fn drain(&mut self) -> (r: ContigDrain<T>)
        requires
            old(self).wf(),
        ensures
            r.wf(),
            r.remaining() == old(self).live(),
            final(self).wf(),
            final(self).spec_len() == 0,
            final(self).spec_capacity() == old(self).spec_capacity(),
            final(self).policy() == old(self).policy(),
            final(self).tracks(Map::empty()),
            final(self).flags_match_forwards(),
            forall|key: Key| #[trigger] final(self).value_of(key) is None,
    {
        self.drain_with_salt(random_word())
    }

    /// The live values in slice order.
    pub fn iter(&self) -> (r: std::slice::Iter<'_, T>)
        requires
            self.wf(),
        ensures
            vstd::std_specs::slice::into_iter_elts(r) == self.live(),
    {
        self.values.as_slice().iter()
    }
}

impl<T: Copy> ContigDrain<T> {
    /// The values not handed out yet, in order.
    pub closed spec fn remaining(&self) -> Seq<T> {
        self.items@.subrange(self.pos as int, self.items@.len() as int)
    }

    pub closed spec fn wf(&self) -> bool {
        self.pos <= self.items@.len()
    }

    /// The next value, or `None` once all are out.
    pub fn next(&mut self) -> (r: Option<T>)
        requires
            old(self).wf(),
        ensures
            final(self).wf(),
            old(self).remaining().len() == 0 ==> r is None && final(self).remaining().len() == 0,
            old(self).remaining().len() > 0 ==> r == Some(old(self).remaining()[0])
                && final(self).remaining() == old(self).remaining().drop_first(),
    {
        if self.pos >= self.items.len() {
            None
        } else {
            let v = self.items[self.pos];
            self.pos = self.pos + 1;
            assert(self.remaining() =~= old(self).remaining().drop_first());
            Some(v)
        }
    }
}

/// Xor with the same word twice gives the word back.
pub proof fn lemma_xor_twice(a: usize, s: usize)
    ensures
        (a ^ s) ^ s == a,
{
    assert((a ^ s) ^ s == a) by (bit_vector);
}

/// The live values after live slot `s` is emptied and refilled from the
/// last live slot.
pub open spec fn hole_filled<T>(live: Seq<T>, s: int) -> Seq<T> {
    if s == live.len() - 1 {
        live.drop_last()
    } else {
        live.update(s, live.last()).drop_last()
    }
}

/// Emptying a live slot and refilling it from the last one takes exactly
/// that slot's value out of the multiset of live values.
pub proof fn lemma_hole_filled_multiset<T>(live: Seq<T>, s: int)
    requires
        0 <= s < live.len(),
    ensures
        hole_filled(live, s).to_multiset() == live.to_multiset().remove(live[s]),
{
    let last = live.len() - 1;
    if s == last {
        assert(live.drop_last() =~= live.remove(s));
        vstd::seq_lib::to_multiset_remove(live, s);
    } else {
        let u = live.update(s, live.last());
        assert(u.drop_last() =~= u.remove(last));
        vstd::seq_lib::to_multiset_remove(u, last);
        vstd::seq_lib::to_multiset_update(live, s, live.last());
        broadcast use vstd::multiset::group_multiset_axioms;
        assert(live.to_multiset().count(live.last()) > 0) by {
            vstd::seq_lib::to_multiset_contains(live, live.last());
        }
        assert(live.to_multiset().insert(live.last()).remove(live[s]).remove(live.last())
            =~= live.to_multiset().remove(live[s]));
    }
}

/// The capacity that a full container grows to under `Doubling`.
pub open spec fn grown_capacity(cap: nat) -> nat {
    if (cap + 2) * 2 < MAX_CAPACITY {
        ((cap + 2) * 2) as nat
    } else {
        MAX_CAPACITY as nat
    }
}

impl<T: Copy> ContigStorage<T> {
    /// A key of a tracked map that resolves does so along a path whose
    /// cells above its slot all lie past the boundary.
    proof fn lemma_tracked_path(&self, i: int, j: int)
        requires
            self.wf(),
            self.lookup(i) is Some,
            on_path(self.cells(), self.spec_len() as int, i, j),
            self.lookup(i)->0 < j,
        ensures
            self.spec_len() <= j,
            resolve(self.cells(), self.spec_len() as int, j) == self.lookup(i),
    {
        let n = self.spec_len() as int;
        lemma_path_resolves_alike(self.cells(), n, i, j);
        lemma_path_descends(self.cells(), n, i, j);
        if j < n {
            assert(resolve(self.cells(), n, j) == Some(j));
        }
    }

    /// Growing a full container keeps every tracked key.
    proof fn lemma_grow_tracks(s1: &Self, s2: &Self, m: Map<Key, T>)
        requires
            s1.tracks(m),
            s2.wf(),
            s1.spec_len() == s1.spec_capacity(),
            s2.live() == s1.live(),
            s2.salt() == s1.salt(),
            s2.spec_capacity() >= s1.spec_capacity(),
            forall|j: int| 0 <= j < s2.spec_capacity() ==> #[trigger] s2.cells()[j] == 0,
            forall|j: int| 0 <= j < s1.spec_capacity() ==> #[trigger] s2.revoked()[j] == s1.revoked()[j],
        ensures
            s2.tracks(m),
    {
        let n = s1.spec_len() as int;
        assert forall|k: Key| #[trigger] m.contains_key(k) implies {
            &&& s2.lookup(s2.index_of(k)) is Some
            &&& s2.live()[s2.lookup(s2.index_of(k))->0] == m[k]
            &&& forall|j: int|
                #[trigger] forwards(s2.cells(), n, j) ==> target(s2.cells(), j) != s2.index_of(k)
        } by {
            let i = s1.index_of(k);
            lemma_resolved_path_ends_live(s1.cells(), n, i);
            assert(s2.lookup(i) == s1.lookup(i));
        }
        assert forall|k1: Key, k2: Key|
            #[trigger] m.contains_key(k1) && #[trigger] m.contains_key(k2) && k1 != k2
            implies s2.lookup(s2.index_of(k1)) != s2.lookup(s2.index_of(k2)) by {
            lemma_resolved_path_ends_live(s1.cells(), n, s1.index_of(k1));
            lemma_resolved_path_ends_live(s1.cells(), n, s1.index_of(k2));
            assert(s2.lookup(s1.index_of(k1)) == s1.lookup(s1.index_of(k1)));
            assert(s2.lookup(s1.index_of(k2)) == s1.lookup(s1.index_of(k2)));
        }
    }

    /// Placing a value in an empty boundary cell keeps every tracked key
    /// and tracks the new one.
    proof fn lemma_place_empty_tracks(s1: &Self, s2: &Self, m: Map<Key, T>, value: T)
        requires
            s1.tracks(m),
            s2.wf(),
            s1.spec_len() < s1.spec_capacity(),
            s1.cells()[s1.spec_len() as int] == 0,
            s2.cells() == s1.cells(),
            s2.live() == s1.live().push(value),
            s2.revoked() == s1.revoked().update(s1.spec_len() as int, false),
            s2.salt() == s1.salt(),
        ensures
            !m.contains_key(s1.key_at(s1.spec_len() as int)),
            s2.tracks(m.insert(s1.key_at(s1.spec_len() as int), value)),
    {
        let l = s1.cells();
        let n1 = s1.spec_len() as int;
        let n2 = n1 + 1;
        let b = n1;
        let kb = s1.key_at(b);
        let m2 = m.insert(kb, value);
        lemma_xor_twice(b as usize, s1.salt());
        assert(s1.index_of(kb) == b);
        assert(resolve(l, n1, b) is None);
        assert forall|j: int| #[trigger] forwards(l, n2, j) implies forwards(l, n1, j) && target(
            l,
            j,
        ) != b by {}
        assert forall|k: Key| #[trigger] m.contains_key(k) implies {
            &&& s2.lookup(s2.index_of(k)) == s1.lookup(s1.index_of(k))
            &&& s2.live()[s2.lookup(s2.index_of(k))->0] == m[k]
            &&& s1.index_of(k) != b
        } by {
            let i = s1.index_of(k);
            lemma_resolved_path_ends_live(l, n1, i);
            let sl = s1.lookup(i)->0;
            assert forall|j: int| #[trigger] on_path(l, n1, i, j) && sl < j implies n2 <= j
                && l[j] == l[j] by {
                s1.lemma_tracked_path(i, j);
            }
            lemma_path_cut(l, n1, l, n2, i, sl);
        }
        assert forall|k: Key| #[trigger] m2.contains_key(k) implies {
            &&& s2.lookup(s2.index_of(k)) is Some
            &&& s2.live()[s2.lookup(s2.index_of(k))->0] == m2[k]
            &&& forall|j: int|
                #[trigger] forwards(s2.cells(), n2, j) ==> target(s2.cells(), j) != s2.index_of(k)
        } by {
            if k == kb {
                assert(s2.lookup(b) == Some(b));
            }
        }
        assert forall|k1: Key, k2: Key|
            #[trigger] m2.contains_key(k1) && #[trigger] m2.contains_key(k2) && k1 != k2
            implies s2.lookup(s2.index_of(k1)) != s2.lookup(s2.index_of(k2)) by {
            if k1 != kb {
                lemma_resolved_path_ends_live(l, n1, s1.index_of(k1));
            }
            if k2 != kb {
                lemma_resolved_path_ends_live(l, n1, s1.index_of(k2));
            }
            if k1 == kb || k2 == kb {
                assert(s2.lookup(b) == Some(b));
            }
        }
    }

    /// Taking over a boundary cell that forwards to slot `t`: the value at
    /// `t` moves to the boundary and `value` takes slot `t`. Every tracked
    /// key is kept, and the new one is tracked.
    proof fn lemma_place_forwarded_tracks(s1: &Self, s2: &Self, m: Map<Key, T>, value: T)
        requires
            s1.tracks(m),
            s2.wf(),
            s1.spec_len() < s1.spec_capacity(),
            s1.cells()[s1.spec_len() as int] != 0,
            s2.cells() == s1.cells().update(s1.spec_len() as int, 0),
            s2.live() == s1.live().update(target(s1.cells(), s1.spec_len() as int), value).push(
                s1.live()[target(s1.cells(), s1.spec_len() as int)],
            ),
            s2.revoked() == s1.revoked().update(s1.spec_len() as int, false).update(
                target(s1.cells(), s1.spec_len() as int),
                false,
            ),
            s2.salt() == s1.salt(),
        ensures
            !m.contains_key(s1.key_at(target(s1.cells(), s1.spec_len() as int))),
            s2.tracks(m.insert(s1.key_at(target(s1.cells(), s1.spec_len() as int)), value)),
    {
        let l1 = s1.cells();
        let l2 = s2.cells();
        let n1 = s1.spec_len() as int;
        let n2 = n1 + 1;
        let b = n1;
        let t = target(l1, b);
        let kt = s1.key_at(t);
        let m2 = m.insert(kt, value);
        assert(forwards(l1, n1, b));
        lemma_xor_twice(t as usize, s1.salt());
        assert(s1.index_of(kt) == t);
        assert(resolve(l1, n1, t) == Some(t));
        assert(resolve(l1, n1, b) == Some(t));
        assert forall|j: int| #[trigger] forwards(l2, n2, j) implies forwards(l1, n1, j) && target(
            l2,
            j,
        ) == target(l1, j) && j != b && target(l1, j) != t by {
            assert(l2[j] == l1[j]);
        }
        // Where each tracked key lands now.
        assert forall|k: Key| #[trigger] m.contains_key(k) implies {
            &&& s2.lookup(s2.index_of(k)) is Some
            &&& s2.live()[s2.lookup(s2.index_of(k))->0] == m[k]
            &&& s1.index_of(k) != t
            &&& s1.lookup(s1.index_of(k)) == Some(t) ==> s2.lookup(s2.index_of(k)) == Some(b)
            &&& s1.lookup(s1.index_of(k)) != Some(t) ==> s2.lookup(s2.index_of(k)) == s1.lookup(
                s1.index_of(k),
            )
        } by {
            let i = s1.index_of(k);
            lemma_resolved_path_ends_live(l1, n1, i);
            let sl = s1.lookup(i)->0;
            if on_path(l1, n1, i, b) {
                lemma_path_resolves_alike(l1, n1, i, b);
                lemma_path_descends(l1, n1, i, b);
                assert forall|j: int| #[trigger] on_path(l1, n1, i, j) && b < j implies n2 <= j
                    && l2[j] == l1[j] by {
                    lemma_path_descends(l1, n1, i, j);
                }
                lemma_path_cut(l1, n1, l2, n2, i, b);
                assert(resolve(l2, n2, b) == Some(b));
            } else {
                if sl == t {
                    if i == t {
                        assert(target(l1, b) != s1.index_of(k));
                    } else {
                        let j = lemma_path_predecessor(l1, n1, i, t);
                        assert(forwards(l1, n1, j) && forwards(l1, n1, b));
                    }
                }
                assert forall|j: int| #[trigger] on_path(l1, n1, i, j) && sl < j implies n2 <= j
                    && l2[j] == l1[j] by {
                    s1.lemma_tracked_path(i, j);
                }
                lemma_path_cut(l1, n1, l2, n2, i, sl);
                assert(resolve(l2, n2, sl) == Some(sl));
            }
        }
        assert forall|k: Key| #[trigger] m2.contains_key(k) implies {
            &&& s2.lookup(s2.index_of(k)) is Some
            &&& s2.live()[s2.lookup(s2.index_of(k))->0] == m2[k]
            &&& forall|j: int|
                #[trigger] forwards(s2.cells(), n2, j) ==> target(s2.cells(), j) != s2.index_of(k)
        } by {
            if k == kt {
                assert(s2.lookup(t) == Some(t));
            } else {
                assert forall|j: int| #[trigger]
                    forwards(s2.cells(), n2, j) implies target(s2.cells(), j) != s2.index_of(
                    k,
                ) by {
                    assert(forwards(l1, n1, j));
                }
            }
        }
        assert forall|k1: Key, k2: Key|
            #[trigger] m2.contains_key(k1) && #[trigger] m2.contains_key(k2) && k1 != k2
            implies s2.lookup(s2.index_of(k1)) != s2.lookup(s2.index_of(k2)) by {
            if k1 != kt {
                lemma_resolved_path_ends_live(l1, n1, s1.index_of(k1));
            }
            if k2 != kt {
                lemma_resolved_path_ends_live(l1, n1, s1.index_of(k2));
            }
            if k1 == kt || k2 == kt {
                assert(s2.lookup(t) == Some(t));
            }
        }
        assert forall|j: int| #[trigger] forwards(l2, n2, j) implies target(l2, j) < n2
            || l2[target(l2, j)] != 0 by {
            let x = target(l1, j);
            if x >= n1 && x != b {
                assert(l2[x] == l1[x]);
            }
        }
        assert forall|j1: int, j2: int|
            #[trigger] forwards(l2, n2, j1) && #[trigger] forwards(l2, n2, j2) && j1 != j2
            implies target(l2, j1) != target(l2, j2) by {
            assert(forwards(l1, n1, j1) && forwards(l1, n1, j2));
        }
    }

    /// What removal does to the forwards: only cells of the removed path
    /// forwarded into it; afterwards the cells that forward are the old
    /// ones off that path, plus the boundary cell when the removed slot was
    /// refilled from it; and the forwards stay disjoint.
    proof fn lemma_remove_forwards(s0: &Self, s2: &Self, key: Key, w: Seq<usize>)
        requires
            s0.wf(),
            s0.forwards_disjoint(),
            s0.lookup(s0.index_of(key)) is Some,
            !s0.forwarded_to(s0.index_of(key)),
            s2.wf(),
            s2.spec_len() + 1 == s0.spec_len(),
            w.len() == s0.cells().len(),
            forall|j: int|
                0 <= j < w.len() ==> #[trigger] w[j] == if on_path(
                    s0.cells(),
                    s0.spec_len() as int,
                    s0.index_of(key),
                    j,
                ) && s0.lookup(s0.index_of(key))->0 < j {
                    0
                } else {
                    s0.cells()[j]
                },
            s2.cells() == if s0.lookup(s0.index_of(key))->0 + 1 == s0.spec_len() {
                w
            } else {
                w.update(s0.spec_len() - 1, (s0.lookup(s0.index_of(key))->0 + 1) as usize)
            },
        ensures
            forall|j: int| #[trigger]
                forwards(s0.cells(), s0.spec_len() as int, j) && on_path(
                    s0.cells(),
                    s0.spec_len() as int,
                    s0.index_of(key),
                    target(s0.cells(), j),
                ) ==> on_path(s0.cells(), s0.spec_len() as int, s0.index_of(key), j)
                    && s0.lookup(s0.index_of(key))->0 < j,
            forall|j: int| #[trigger]
                forwards(s2.cells(), s2.spec_len() as int, j) <==> ((j == s0.spec_len() - 1
                    && s0.lookup(s0.index_of(key))->0 + 1 != s0.spec_len()) || (forwards(
                    s0.cells(),
                    s0.spec_len() as int,
                    j,
                ) && !on_path(s0.cells(), s0.spec_len() as int, s0.index_of(key), j))),
            forall|j: int| #[trigger]
                forwards(s2.cells(), s2.spec_len() as int, j) ==> target(s2.cells(), j) == if j
                    == s0.spec_len() - 1 && s0.lookup(s0.index_of(key))->0 + 1 != s0.spec_len() {
                    s0.lookup(s0.index_of(key))->0
                } else {
                    target(s0.cells(), j)
                },
            s2.forwards_disjoint(),
    {
        let l0 = s0.cells();
        let l2 = s2.cells();
        let n1 = s0.spec_len() as int;
        let n2 = n1 - 1;
        let i0 = s0.index_of(key);
        let s = s0.lookup(i0)->0;
        lemma_resolved_path_ends_live(l0, n1, i0);
        assert forall|j: int| #[trigger]
            forwards(l0, n1, j) && on_path(l0, n1, i0, target(l0, j)) implies on_path(
            l0,
            n1,
            i0,
            j,
        ) && s < j by {
            let x = target(l0, j);
            assert(x != i0);
            let p = lemma_path_predecessor(l0, n1, i0, x);
            assert(forwards(l0, n1, p));
            lemma_path_resolves_alike(l0, n1, i0, x);
            lemma_resolved_path_ends_live(l0, n1, x);
            lemma_path_descends(l0, n1, x, s);
        }
        assert forall|j: int| #[trigger] forwards(l2, n2, j) <==> ((j == n1 - 1 && s + 1 != n1) || (
        forwards(l0, n1, j) && !on_path(l0, n1, i0, j))) by {
            if forwards(l0, n1, j) && !on_path(l0, n1, i0, j) {
                assert(l2[j] == w[j]);
            }
            if forwards(l2, n2, j) && !(j == n1 - 1 && s + 1 != n1) {
                assert(l2[j] == w[j]);
                if j == n1 - 1 {
                    assert(l0[j] == 0);
                }
                if on_path(l0, n1, i0, j) {
                    if j <= s {
                        lemma_path_descends(l0, n1, i0, j);
                        if j != s {
                            lemma_path_between(l0, n1, i0, s, j);
                            lemma_path_descends(l0, n1, s, j);
                        }
                    }
                }
            }
        }
        assert forall|j: int| #[trigger] forwards(l2, n2, j) && !(j == n1 - 1 && s + 1 != n1)
            implies target(l2, j) == target(l0, j) by {
            assert(l2[j] == w[j]);
        }
        assert(on_path(l0, n1, i0, s));
        assert forall|j: int| #[trigger] forwards(l2, n2, j) implies target(l2, j) < n2
            || l2[target(l2, j)] != 0 by {
            if forwards(l0, n1, j) && !on_path(l0, n1, i0, j) {
                let x = target(l0, j);
                if x >= n2 {
                    if x == n1 - 1 {
                        if s + 1 == n1 {
                            assert(on_path(l0, n1, i0, x));
                        }
                    } else {
                        if on_path(l0, n1, i0, x) {
                            assert(on_path(l0, n1, i0, j));
                        }
                        assert(w[x] == l0[x]);
                    }
                }
            }
        }
        assert forall|j1: int, j2: int|
            #[trigger] forwards(l2, n2, j1) && #[trigger] forwards(l2, n2, j2) && j1 != j2
            implies target(l2, j1) != target(l2, j2) by {
            if j1 == n1 - 1 && s + 1 != n1 && forwards(l0, n1, j2) && !on_path(l0, n1, i0, j2) {
                assert(on_path(l0, n1, i0, s));
            }
            if j2 == n1 - 1 && s + 1 != n1 && forwards(l0, n1, j1) && !on_path(l0, n1, i0, j1) {
                assert(on_path(l0, n1, i0, s));
            }
        }
    }

    /// Removing a tracked key keeps every other tracked key: a key whose
    /// value sat in the last live slot now reaches it through the boundary
    /// cell, the others are untouched.
    proof fn lemma_remove_tracks(
        s0: &Self,
        s2: &Self,
        m: Map<Key, T>,
        key: Key,
        w: Seq<usize>,
        v: Seq<bool>,
    )
        requires
            s0.tracks(m),
            m.contains_key(key),
            s2.wf(),
            w.len() == s0.cells().len(),
            v.len() == s0.revoked().len(),
            forall|j: int|
                0 <= j < w.len() ==> #[trigger] w[j] == if on_path(
                    s0.cells(),
                    s0.spec_len() as int,
                    s0.index_of(key),
                    j,
                ) && s0.lookup(s0.index_of(key))->0 < j {
                    0
                } else {
                    s0.cells()[j]
                },
            forall|x: int|
                0 <= x < v.len() ==> #[trigger] v[x] == if on_path(
                    s0.cells(),
                    s0.spec_len() as int,
                    s0.index_of(key),
                    x,
                ) && s0.lookup(s0.index_of(key))->0 <= x < s0.index_of(key) {
                    false
                } else {
                    s0.revoked()[x]
                },
            s2.cells() == if s0.lookup(s0.index_of(key))->0 + 1 == s0.spec_len() {
                w
            } else {
                w.update(s0.spec_len() - 1, (s0.lookup(s0.index_of(key))->0 + 1) as usize)
            },
            s2.revoked() == v.update(
                s0.lookup(s0.index_of(key))->0,
                s0.lookup(s0.index_of(key))->0 + 1 != s0.spec_len(),
            ),
            s2.live() == hole_filled(s0.live(), s0.lookup(s0.index_of(key))->0),
            s2.salt() == s0.salt(),
        ensures
            s2.tracks(m.remove(key)),
    {
        let l0 = s0.cells();
        let l2 = s2.cells();
        let n1 = s0.spec_len() as int;
        let n2 = n1 - 1;
        let i0 = s0.index_of(key);
        let s = s0.lookup(i0)->0;
        let m2 = m.remove(key);
        lemma_resolved_path_ends_live(l0, n1, i0);
        assert(s2.spec_len() == n2);
        Self::lemma_remove_forwards(s0, s2, key, w);
        assert forall|k: Key| #[trigger] m.contains_key(k) && k != key implies {
            &&& s2.lookup(s2.index_of(k)) is Some
            &&& s2.live()[s2.lookup(s2.index_of(k))->0] == m[k]
            &&& s2.lookup(s2.index_of(k)) == Some(
                if s0.lookup(s0.index_of(k))->0 == n1 - 1 {
                    s
                } else {
                    s0.lookup(s0.index_of(k))->0
                },
            )
            &&& forall|j: int| #[trigger] forwards(l2, n2, j) ==> target(l2, j) != s2.index_of(k)
        } by {
            let i = s0.index_of(k);
            lemma_resolved_path_ends_live(l0, n1, i);
            let sl = s0.lookup(i)->0;
            assert(sl != s);
            assert forall|y: int| #[trigger] on_path(l0, n1, i, y) implies !on_path(
                l0,
                n1,
                i0,
                y,
            ) by {
                lemma_path_resolves_alike(l0, n1, i, y);
                if on_path(l0, n1, i0, y) {
                    lemma_path_resolves_alike(l0, n1, i0, y);
                }
            }
            assert forall|j: int| #[trigger] on_path(l0, n1, i, j) && sl < j implies n2 <= j
                && l2[j] == l0[j] by {
                s0.lemma_tracked_path(i, j);
                lemma_path_descends(l0, n1, i, j);
                assert(w[j] == l0[j]);
            }
            lemma_path_cut(l0, n1, l2, n2, i, sl);
            if sl == n1 - 1 {
                assert(forwards(l2, n2, n1 - 1));
                assert(resolve(l2, n2, s) == Some(s));
                assert(resolve(l2, n2, sl) == Some(s));
            } else {
                assert(resolve(l2, n2, sl) == Some(sl));
            }
            if 0 <= i < n2 {
                assert(resolve(l0, n1, i) == Some(i));
                assert(v[i] == s0.revoked()[i]);
            }
            if i == s {
                assert(resolve(l0, n1, s) == Some(s));
            }
        }
        assert forall|k: Key| #[trigger] m2.contains_key(k) implies {
            &&& s2.lookup(s2.index_of(k)) is Some
            &&& s2.live()[s2.lookup(s2.index_of(k))->0] == m2[k]
            &&& forall|j: int| #[trigger] forwards(l2, n2, j) ==> target(l2, j) != s2.index_of(k)
        } by {
            assert(m.contains_key(k) && k != key);
        }
        assert forall|k1: Key, k2: Key|
            #[trigger] m2.contains_key(k1) && #[trigger] m2.contains_key(k2) && k1 != k2
            implies s2.lookup(s2.index_of(k1)) != s2.lookup(s2.index_of(k2)) by {
            assert(m.contains_key(k1) && k1 != key);
            assert(m.contains_key(k2) && k2 != key);
            lemma_resolved_path_ends_live(l0, n1, s0.index_of(k1));
            lemma_resolved_path_ends_live(l0, n1, s0.index_of(k2));
        }
    }

    /// Growing a full container keeps the flags matched to the forwards.
    proof fn lemma_grow_flags(s1: &Self, s2: &Self, extra: nat)
        requires
            s1.flags_match_forwards(),
            s2.wf(),
            s1.spec_len() == s1.spec_capacity(),
            s2.live() == s1.live(),
            forall|j: int| 0 <= j < s2.spec_capacity() ==> #[trigger] s2.cells()[j] == 0,
            s2.revoked() == s1.revoked() + Seq::new(extra, |_i: int| false),
        ensures
            s2.flags_match_forwards(),
    {
        assert forall|x: int| 0 <= x < s2.spec_capacity() implies !#[trigger] s2.revoked()[x]
            && !s2.forwarded_to(x) by {
            if x < s1.spec_capacity() {
                assert(!s1.forwarded_to(x));
            }
        }
        lemma_count_nonzero_empty(s2.cells());
        lemma_count_set_clear(s2.revoked());
    }

    /// An empty cell at the boundary is forwarded to by nothing, so placing
    /// a value there keeps the flags matched to the forwards.
    proof fn lemma_place_empty_flags(s1: &Self, s2: &Self, value: T)
        requires
            s1.flags_match_forwards(),
            s2.wf(),
            s1.spec_len() < s1.spec_capacity(),
            s1.cells()[s1.spec_len() as int] == 0,
            s2.cells() == s1.cells(),
            s2.live() == s1.live().push(value),
            s2.revoked() == s1.revoked().update(s1.spec_len() as int, false),
        ensures
            s2.flags_match_forwards(),
    {
        let l = s1.cells();
        let n1 = s1.spec_len() as int;
        let b = n1;
        assert forall|j: int| #[trigger] forwards(l, n1 + 1, j) <==> forwards(l, n1, j) by {}
        assert(!s1.forwarded_to(b));
        assert forall|x: int| 0 <= x < s2.spec_capacity() implies (#[trigger] s2.revoked()[x]
            <==> s2.forwarded_to(x)) by {
            if s1.forwarded_to(x) {
                let j = choose|j: int| #[trigger]
                    forwards(l, n1, j) && target(l, j) == x;
                assert(forwards(l, n1 + 1, j));
            }
        }
        lemma_count_set_update(s1.revoked(), b, false);
    }

    /// Taking over a boundary cell that forwards, where nothing forwards to
    /// that cell itself, keeps the flags matched to the forwards.
    proof fn lemma_place_forwarded_flags(s1: &Self, s2: &Self, value: T)
        requires
            s1.flags_match_forwards(),
            !s1.forwarded_to(s1.spec_len() as int),
            s2.wf(),
            s1.spec_len() < s1.spec_capacity(),
            s1.cells()[s1.spec_len() as int] != 0,
            s2.cells() == s1.cells().update(s1.spec_len() as int, 0),
            s2.live() == s1.live().update(target(s1.cells(), s1.spec_len() as int), value).push(
                s1.live()[target(s1.cells(), s1.spec_len() as int)],
            ),
            s2.revoked() == s1.revoked().update(s1.spec_len() as int, false).update(
                target(s1.cells(), s1.spec_len() as int),
                false,
            ),
        ensures
            s2.flags_match_forwards(),
    {
        let l1 = s1.cells();
        let l2 = s2.cells();
        let n1 = s1.spec_len() as int;
        let n2 = n1 + 1;
        let b = n1;
        let t = target(l1, b);
        assert(forwards(l1, n1, b));
        assert forall|j: int| #[trigger] forwards(l2, n2, j) <==> (forwards(l1, n1, j) && j != b) by {
            if j != b && 0 <= j < l1.len() {
                assert(l2[j] == l1[j]);
            }
        }
        assert(s1.forwarded_to(t));
        assert forall|x: int| 0 <= x < s2.spec_capacity() implies (#[trigger] s2.revoked()[x]
            <==> s2.forwarded_to(x)) by {
            if s1.forwarded_to(x) && x != t {
                let j = choose|j: int| #[trigger]
                    forwards(l1, n1, j) && target(l1, j) == x;
                assert(forwards(l2, n2, j) && target(l2, j) == x);
            }
            if s2.forwarded_to(x) {
                let j = choose|j: int| #[trigger]
                    forwards(l2, n2, j) && target(l2, j) == x;
                assert(forwards(l1, n1, j) && target(l1, j) == x);
            }
        }
        assert forall|j: int| #[trigger] forwards(l2, n2, j) implies target(l2, j) < n2
            || l2[target(l2, j)] != 0 by {
            assert(forwards(l1, n1, j));
            let x = target(l1, j);
            if x >= n1 {
                assert(x != b);
                assert(l2[x] == l1[x]);
            }
        }
        assert forall|j1: int, j2: int|
            #[trigger] forwards(l2, n2, j1) && #[trigger] forwards(l2, n2, j2) && j1 != j2
            implies target(l2, j1) != target(l2, j2) by {
            assert(forwards(l1, n1, j1) && forwards(l1, n1, j2));
        }
        lemma_count_nonzero_update(l1, b, 0);
        let r1 = s1.revoked().update(b, false);
        lemma_count_set_update(s1.revoked(), b, false);
        lemma_count_set_update(r1, t, false);
    }

    /// Removing through an index that nothing forwards to keeps the flags
    /// matched to the forwards: every cell on the way is emptied along with
    /// the flag of the slot it forwarded to, and a refill from the boundary
    /// adds one forward and one flag.
    proof fn lemma_remove_flags(s0: &Self, s2: &Self, key: Key, w: Seq<usize>, v: Seq<bool>)
        requires
            s0.flags_match_forwards(),
            s0.lookup(s0.index_of(key)) is Some,
            !s0.forwarded_to(s0.index_of(key)),
            s2.wf(),
            count_nonzero(s2.cells()) == count_set(s2.revoked()),
            w.len() == s0.cells().len(),
            v.len() == s0.revoked().len(),
            forall|j: int|
                0 <= j < w.len() ==> #[trigger] w[j] == if on_path(
                    s0.cells(),
                    s0.spec_len() as int,
                    s0.index_of(key),
                    j,
                ) && s0.lookup(s0.index_of(key))->0 < j {
                    0
                } else {
                    s0.cells()[j]
                },
            forall|x: int|
                0 <= x < v.len() ==> #[trigger] v[x] == if on_path(
                    s0.cells(),
                    s0.spec_len() as int,
                    s0.index_of(key),
                    x,
                ) && s0.lookup(s0.index_of(key))->0 <= x < s0.index_of(key) {
                    false
                } else {
                    s0.revoked()[x]
                },
            s2.cells() == if s0.lookup(s0.index_of(key))->0 + 1 == s0.spec_len() {
                w
            } else {
                w.update(s0.spec_len() - 1, (s0.lookup(s0.index_of(key))->0 + 1) as usize)
            },
            s2.revoked() == v.update(
                s0.lookup(s0.index_of(key))->0,
                s0.lookup(s0.index_of(key))->0 + 1 != s0.spec_len(),
            ),
            s2.spec_len() + 1 == s0.spec_len(),
        ensures
            s2.flags_match_forwards(),
    {
        let l0 = s0.cells();
        let l2 = s2.cells();
        let n1 = s0.spec_len() as int;
        let n2 = n1 - 1;
        let i0 = s0.index_of(key);
        let s = s0.lookup(i0)->0;
        lemma_resolved_path_ends_live(l0, n1, i0);
        Self::lemma_remove_forwards(s0, s2, key, w);
        assert(on_path(l0, n1, i0, s));
        assert(!s0.revoked()[i0]);
        assert forall|x: int| 0 <= x < s2.spec_capacity() implies (#[trigger] s2.revoked()[x]
            <==> s2.forwarded_to(x)) by {
            // A forward after the removal into the removed path is the new one.
            if s2.forwarded_to(x) {
                let j = choose|j: int| #[trigger] forwards(l2, n2, j) && target(l2, j) == x;
                if !(j == n1 - 1 && s + 1 != n1) {
                    assert(forwards(l0, n1, j) && !on_path(l0, n1, i0, j));
                    assert(target(l0, j) == x);
                    assert(s0.forwarded_to(x));
                    assert(!on_path(l0, n1, i0, x));
                } else {
                    assert(x == s);
                }
            }
            if x == s {
                if s + 1 != n1 {
                    assert(forwards(l2, n2, n1 - 1) && target(l2, n1 - 1) == s);
                }
                assert(s2.revoked()[x] == (s + 1 != n1));
            } else if on_path(l0, n1, i0, x) {
                assert(s2.revoked()[x] == v[x]);
                lemma_path_descends(l0, n1, i0, x);
                if x < i0 {
                    lemma_path_resolves_alike(l0, n1, i0, x);
                    lemma_resolved_path_ends_live(l0, n1, x);
                    lemma_path_descends(l0, n1, x, s);
                    assert(!v[x]);
                } else {
                    assert(x == i0);
                    assert(!v[x]);
                }
                assert(!s2.revoked()[x]);
            } else {
                assert(s2.revoked()[x] == s0.revoked()[x]);
                if s0.forwarded_to(x) {
                    let j = choose|j: int| #[trigger] forwards(l0, n1, j) && target(l0, j) == x;
                    if on_path(l0, n1, i0, j) {
                        if j <= s {
                            lemma_path_descends(l0, n1, i0, j);
                            if j != s {
                                lemma_path_between(l0, n1, i0, s, j);
                                lemma_path_descends(l0, n1, s, j);
                            }
                        }
                        assert(on_path(l0, n1, target(l0, j), target(l0, j)));
                        assert(on_path(l0, n1, j, target(l0, j)));
                        lemma_path_transitive(l0, n1, i0, j, target(l0, j));
                    }
                    assert(forwards(l2, n2, j) && target(l2, j) == x);
                }
            }
        }
    }

    /// With every cell empty and every flag clear, the flags match the
    /// forwards.
    proof fn lemma_blank_flags(&self)
        requires
            self.wf(),
            forall|j: int| 0 <= j < self.spec_capacity() ==> #[trigger] self.cells()[j] == 0,
            forall|j: int| 0 <= j < self.spec_capacity() ==> !#[trigger] self.revoked()[j],
        ensures
            self.flags_match_forwards(),
    {
        lemma_count_nonzero_empty(self.cells());
        lemma_count_set_clear(self.revoked());
    }
}

} // verus!
