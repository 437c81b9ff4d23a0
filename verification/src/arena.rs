//! Mathematical model of a compacting generational allocator.
//!
//! An [`Arena`] is the abstract state that the compacting maps of this crate
//! implement: a slot table, a dense store of values, the back pointers from dense
//! positions to slots, and the order in which free slots will be reused. The
//! operations are plain functions on that state, and the properties that callers
//! rely on are proved here once, for every implementation.
//!
//! A generation has sixteen bits and wraps silently. A handle is told from a stale
//! one by its generation alone, so a handle that is kept while its slot is vacated
//! 65536 times is taken for live again whenever the slot is occupied in the
//! generation that the handle records. The laws below speak of one removal at a
//! time, where the next generation always differs from the last.

use crate::bag::{lemma_values_of_empty, lemma_values_of_remove, values_of};
use vstd::prelude::*;
use vstd::seq_lib::to_multiset_build;

verus! {

/// What a handle holds: the slot it names and the generation it was issued for.
pub struct Handle {
    pub slot: nat,
    pub generation: u16,
}

/// One entry of the slot table.
pub struct SlotState {
    /// Advanced each time the slot is vacated.
    pub generation: u16,
    /// Where the slot's value lives in the dense store; `None` while the slot is free.
    pub position: Option<nat>,
}

/// The generation that follows `g`. The counter has sixteen bits and wraps to zero.
pub open spec fn next_generation(g: u16) -> u16 {
    if g == u16::MAX {
        0
    } else {
        (g + 1) as u16
    }
}

/// Abstract state of a compacting generational allocator.
pub struct Arena<T> {
    /// The slot table. A slot's index never changes.
    pub slots: Seq<SlotState>,
    /// The live values, packed without holes.
    pub values: Seq<T>,
    /// For each dense position, the slot whose value is stored there.
    pub owners: Seq<nat>,
    /// The free slots in the order in which they will be reused, next first.
    pub free: Seq<nat>,
}

/// One step of a caller's use of an allocator.
pub enum Operation<T> {
    /// Store the value.
    Insert(T),
    /// Remove what the handle names, if it is live.
    Remove(Handle),
}

impl<T> Arena<T> {
    /// The arena with no slots and no values.
    pub open spec fn empty() -> Self {
        Arena {
            slots: Seq::empty(),
            values: Seq::empty(),
            owners: Seq::empty(),
            free: Seq::empty(),
        }
    }

    /// Number of live values.
    pub open spec fn len(self) -> nat {
        self.values.len()
    }

    /// Slots and dense positions point at each other, the free slots are exactly
    /// listed once each, and every slot is either occupied or free.
    pub open spec fn wf(self) -> bool {
        &&& self.owners.len() == self.values.len()
        &&& self.values.len() + self.free.len() == self.slots.len()
        &&& forall|p: int|
            0 <= p < self.owners.len() ==> (#[trigger] self.owners[p]) < self.slots.len()
                && self.slots[self.owners[p] as int].position == Some(p as nat)
        &&& forall|s: int|
            0 <= s < self.slots.len() ==> ((#[trigger] self.slots[s]).position matches Some(p)
                ==> p < self.owners.len() && self.owners[p as int] == s)
        &&& forall|i: int|
            0 <= i < self.free.len() ==> (#[trigger] self.free[i]) < self.slots.len()
                && self.slots[self.free[i] as int].position is None
        &&& forall|i: int, j: int|
            0 <= i < j < self.free.len() ==> #[trigger] self.free[i] != #[trigger] self.free[j]
    }

    /// Whether `h` names an occupied slot in the generation that the slot is in now.
    pub open spec fn live(self, h: Handle) -> bool {
        &&& h.slot < self.slots.len()
        &&& self.slots[h.slot as int].generation == h.generation
        &&& self.slots[h.slot as int].position is Some
    }

    /// The dense position of the value that a live handle names.
    pub open spec fn position_of(self, h: Handle) -> nat {
        self.slots[h.slot as int].position->0
    }

    /// The value that `h` resolves to, if it is live.
    pub open spec fn lookup(self, h: Handle) -> Option<T> {
        if self.live(h) {
            Some(self.values[self.position_of(h) as int])
        } else {
            None
        }
    }

    /// The live handles with their values.
    pub open spec fn as_map(self) -> Map<Handle, T> {
        Map::new(|h: Handle| self.live(h), |h: Handle| self.values[self.position_of(h) as int])
    }

    /// The handle under which the value at dense position `p` is reachable.
    pub open spec fn handle_at(self, p: int) -> Handle {
        Handle { slot: self.owners[p], generation: self.slots[self.owners[p] as int].generation }
    }

    /// The handle that the next insertion will return: the first free slot in its
    /// present generation, or a new slot in generation zero when none is free.
    pub open spec fn next_handle(self) -> Handle {
        if self.free.len() == 0 {
            Handle { slot: self.slots.len(), generation: 0 }
        } else {
            Handle { slot: self.free[0], generation: self.slots[self.free[0] as int].generation }
        }
    }

    /// State after inserting `value`. The value goes to the end of the dense store;
    /// its slot is the one named by [`Arena::next_handle`].
    pub open spec fn insert(self, value: T) -> Self {
        let p = self.values.len();
        if self.free.len() == 0 {
            Arena {
                slots: self.slots.push(SlotState { generation: 0, position: Some(p) }),
                values: self.values.push(value),
                owners: self.owners.push(self.slots.len()),
                free: self.free,
            }
        } else {
            let s = self.free[0];
            Arena {
                slots: self.slots.update(
                    s as int,
                    SlotState { generation: self.slots[s as int].generation, position: Some(p) },
                ),
                values: self.values.push(value),
                owners: self.owners.push(s),
                free: self.free.drop_first(),
            }
        }
    }

    /// State after removing `h`. A handle that is not live leaves the state as it is.
    /// Otherwise the slot's generation advances, the last value of the dense store
    /// moves into the vacated position, the slot that owned the last position is
    /// repaired, and the vacated slot becomes the first to be reused.
    pub open spec fn remove(self, h: Handle) -> Self {
        if !self.live(h) {
            self
        } else {
            let s = h.slot as int;
            let p = self.position_of(h) as int;
            let last = self.values.len() - 1;
            let moved = self.owners[last];
            Arena {
                slots: self.slots.update(
                    moved as int,
                    SlotState {
                        generation: self.slots[moved as int].generation,
                        position: Some(p as nat),
                    },
                ).update(
                    s,
                    SlotState { generation: next_generation(h.generation), position: None },
                ),
                values: self.values.update(p, self.values[last]).drop_last(),
                owners: self.owners.update(p, moved).drop_last(),
                free: seq![h.slot] + self.free,
            }
        }
    }

    /// State after clearing: no value is left, every slot is free and one generation
    /// further, and the slots will be reused in ascending order.
    pub open spec fn clear(self) -> Self {
        Arena {
            slots: Seq::new(
                self.slots.len(),
                |s: int|
                    SlotState {
                        generation: next_generation(self.slots[s].generation),
                        position: None,
                    },
            ),
            values: Seq::empty(),
            owners: Seq::empty(),
            free: Seq::new(self.slots.len(), |s: int| s as nat),
        }
    }

    /// State after overwriting the value of a live handle.
    pub open spec fn set(self, h: Handle, value: T) -> Self {
        if self.live(h) {
            Arena { values: self.values.update(self.position_of(h) as int, value), ..self }
        } else {
            self
        }
    }

    /// Whether `other` has the slots, back pointers and free order of `self`, and as
    /// many values: the two differ at most in what the values are.
    pub open spec fn same_shape(self, other: Self) -> bool {
        &&& other.slots == self.slots
        &&& other.owners == self.owners
        &&& other.free == self.free
        &&& other.values.len() == self.values.len()
    }

    /// Insertion keeps the arena well formed.
    pub proof fn lemma_insert_wf(self, value: T)
        requires
            self.wf(),
        ensures
            self.insert(value).wf(),
    {
        let a = self.insert(value);
        let p = self.values.len() as int;
        if self.free.len() == 0 {
            assert forall|q: int| 0 <= q < a.owners.len() implies (#[trigger] a.owners[q])
                < a.slots.len() && a.slots[a.owners[q] as int].position == Some(q as nat) by {
                if q < p {
                    assert(self.owners[q] < self.slots.len());
                }
            }
            assert forall|s: int| 0 <= s < a.slots.len() implies ((#[trigger] a.slots[s]).position
                matches Some(q) ==> q < a.owners.len() && a.owners[q as int] == s) by {
                if s < self.slots.len() {
                    assert(self.slots[s] == a.slots[s]);
                }
            }
        } else {
            let s0 = self.free[0];
            assert(s0 < self.slots.len() && self.slots[s0 as int].position is None);
            assert forall|q: int| 0 <= q < a.owners.len() implies (#[trigger] a.owners[q])
                < a.slots.len() && a.slots[a.owners[q] as int].position == Some(q as nat) by {
                if q < p {
                    assert(self.owners[q] < self.slots.len());
                    assert(self.slots[self.owners[q] as int].position == Some(q as nat));
                }
            }
            assert forall|s: int| 0 <= s < a.slots.len() implies ((#[trigger] a.slots[s]).position
                matches Some(q) ==> q < a.owners.len() && a.owners[q as int] == s) by {
                if s != s0 {
                    assert(self.slots[s] == a.slots[s]);
                }
            }
            assert forall|i: int| 0 <= i < a.free.len() implies (#[trigger] a.free[i])
                < a.slots.len() && a.slots[a.free[i] as int].position is None by {
                assert(a.free[i] == self.free[i + 1]);
                assert(self.free[0] != self.free[i + 1]);
            }
            assert forall|i: int, j: int| 0 <= i < j < a.free.len() implies #[trigger] a.free[i]
                != #[trigger] a.free[j] by {
                assert(a.free[i] == self.free[i + 1]);
                assert(a.free[j] == self.free[j + 1]);
            }
        }
    }

    /// Removal keeps the arena well formed.
    pub proof fn lemma_remove_wf(self, h: Handle)
        requires
            self.wf(),
        ensures
            self.remove(h).wf(),
    {
        if self.live(h) {
            let a = self.remove(h);
            let s = h.slot as int;
            let p = self.position_of(h) as int;
            let last = self.values.len() - 1;
            let moved = self.owners[last] as int;
            assert(self.slots[s].position == Some(p as nat));
            assert(self.owners[p] == s);
            assert(self.slots[self.owners[last] as int].position == Some(last as nat));
            assert forall|q: int| 0 <= q < a.owners.len() implies (#[trigger] a.owners[q])
                < a.slots.len() && a.slots[a.owners[q] as int].position == Some(q as nat) by {
                if q != p {
                    assert(self.owners[q] < self.slots.len());
                    assert(self.slots[self.owners[q] as int].position == Some(q as nat));
                }
            }
            assert forall|t: int| 0 <= t < a.slots.len() implies ((#[trigger] a.slots[t]).position
                matches Some(q) ==> q < a.owners.len() && a.owners[q as int] == t) by {
                if t != s && t != moved {
                    assert(self.slots[t] == a.slots[t]);
                }
            }
            assert forall|i: int| 0 <= i < a.free.len() implies (#[trigger] a.free[i])
                < a.slots.len() && a.slots[a.free[i] as int].position is None by {
                if i > 0 {
                    assert(a.free[i] == self.free[i - 1]);
                    assert(self.slots[self.free[i - 1] as int].position is None);
                }
            }
            assert forall|i: int, j: int| 0 <= i < j < a.free.len() implies #[trigger] a.free[i]
                != #[trigger] a.free[j] by {
                assert(a.free[j] == self.free[j - 1]);
                assert(self.slots[self.free[j - 1] as int].position is None);
                if i > 0 {
                    assert(a.free[i] == self.free[i - 1]);
                }
            }
        }
    }

    /// Clearing keeps the arena well formed.
    pub proof fn lemma_clear_wf(self)
        ensures
            self.clear().wf(),
            self.clear().len() == 0,
    {
    }

    /// Overwriting a value keeps the arena well formed.
    pub proof fn lemma_same_shape_wf(self, other: Self)
        requires
            self.wf(),
            self.same_shape(other),
        ensures
            other.wf(),
    {
    }

    /// Insertion adds the new handle with its value to the live handles and leaves
    /// the others as they were. The new handle was not live before.
    pub proof fn lemma_insert_as_map(self, value: T)
        requires
            self.wf(),
        ensures
            !self.live(self.next_handle()),
            self.insert(value).as_map() == self.as_map().insert(self.next_handle(), value),
    {
        let a = self.insert(value);
        let k = self.next_handle();
        if self.free.len() > 0 {
            assert(self.slots[self.free[0] as int].position is None);
        }
        assert forall|h: Handle| a.live(h) == (h == k || self.live(h)) by {}
        assert forall|h: Handle| a.live(h) && h != k implies a.values[a.position_of(h) as int]
            == self.values[self.position_of(h) as int] by {
            assert(self.slots[h.slot as int].position == Some(self.position_of(h)));
        }
        assert(a.as_map() =~= self.as_map().insert(k, value));
    }

    /// Removal takes the handle out of the live handles and leaves the others with
    /// their values, wherever the dense store keeps them afterwards.
    pub proof fn lemma_remove_as_map(self, h: Handle)
        requires
            self.wf(),
        ensures
            self.remove(h).as_map() == self.as_map().remove(h),
    {
        let a = self.remove(h);
        if self.live(h) {
            let s = h.slot as int;
            let p = self.position_of(h) as int;
            let last = self.values.len() - 1;
            let moved = self.owners[last] as int;
            assert(self.slots[s].position == Some(p as nat));
            assert(self.owners[p] == s);
            assert(self.slots[self.owners[last] as int].position == Some(last as nat));
            assert forall|g: Handle| a.live(g) == (g != h && self.live(g)) by {}
            assert forall|g: Handle| a.live(g) implies a.values[a.position_of(g) as int]
                == self.values[self.position_of(g) as int] by {
                let q = self.position_of(g) as int;
                assert(self.slots[g.slot as int].position == Some(q as nat));
                assert(self.owners[q] == g.slot);
            }
            assert(a.as_map() =~= self.as_map().remove(h));
        } else {
            assert(a.as_map() =~= self.as_map().remove(h));
        }
    }

    /// Overwriting the value of a live handle changes what that handle resolves to
    /// and nothing else.
    pub proof fn law_overwrite_changes_one_value(self, h: Handle, value: T)
        requires
            self.wf(),
            self.live(h),
        ensures
            self.set(h, value).wf(),
            self.same_shape(self.set(h, value)),
            self.set(h, value).as_map() == self.as_map().insert(h, value),
    {
        let a = self.set(h, value);
        let p = self.position_of(h) as int;
        assert(self.slots[h.slot as int].position == Some(p as nat));
        assert forall|g: Handle| a.live(g) && g != h implies a.values[a.position_of(g) as int]
            == self.values[self.position_of(g) as int] by {
            let q = self.position_of(g) as int;
            assert(self.slots[g.slot as int].position == Some(q as nat));
            assert(self.owners[q] == g.slot);
        }
        assert(a.as_map() =~= self.as_map().insert(h, value));
    }

    /// Round trip: the handle that an insertion returns resolves to the inserted
    /// value, and every handle that was live before resolves to what it did.
    pub proof fn law_insert_round_trip(self, value: T)
        requires
            self.wf(),
        ensures
            self.insert(value).lookup(self.next_handle()) == Some(value),
            forall|h: Handle| self.live(h) ==> self.insert(value).lookup(h) == self.lookup(h),
    {
        self.lemma_insert_as_map(value);
        let a = self.insert(value);
        let k = self.next_handle();
        assert(a.as_map().contains_key(k) && a.as_map()[k] == value);
        assert forall|h: Handle| self.live(h) implies a.lookup(h) == self.lookup(h) by {
            assert(self.as_map().contains_key(h));
            assert(a.as_map().contains_key(h) && a.as_map()[h] == self.as_map()[h]);
        }
    }

    /// Removal invalidates: a removed handle resolves to nothing, and removing it a
    /// second time finds nothing and changes nothing.
    pub proof fn law_remove_invalidates(self, h: Handle)
        requires
            self.wf(),
            self.live(h),
        ensures
            self.remove(h).lookup(h) is None,
            self.remove(h).remove(h) == self.remove(h),
    {
    }

    /// Generation isolation: an insertion that follows a removal reuses the vacated
    /// slot under a handle that differs from the removed one, the new handle resolves
    /// to the new value, and the removed handle still resolves to nothing.
    pub proof fn law_generation_isolation(self, h: Handle, value: T)
        requires
            self.wf(),
            self.live(h),
        ensures
            self.remove(h).next_handle().slot == h.slot,
            self.remove(h).next_handle().generation == next_generation(h.generation),
            self.remove(h).next_handle() != h,
            self.remove(h).insert(value).lookup(self.remove(h).next_handle()) == Some(value),
            self.remove(h).insert(value).lookup(h) is None,
    {
        let a = self.remove(h);
        self.lemma_remove_wf(h);
        assert(a.free[0] == h.slot);
        a.law_insert_round_trip(value);
    }

    /// Removal preserves siblings: whatever a removal moves inside the dense store,
    /// every other handle resolves to what it resolved to before.
    pub proof fn law_remove_preserves_others(self, h: Handle, other: Handle)
        requires
            self.wf(),
            other != h,
        ensures
            self.remove(h).lookup(other) == self.lookup(other),
    {
        self.lemma_remove_as_map(h);
        let a = self.remove(h);
        if self.live(other) {
            assert(self.as_map().contains_key(other));
            assert(a.as_map().contains_key(other) && a.as_map()[other] == self.as_map()[other]);
        } else {
            assert(!self.as_map().contains_key(other));
            assert(!a.as_map().contains_key(other));
        }
    }

    /// Clearing invalidates all: afterwards no handle whatsoever resolves to a value
    /// and no value is stored.
    pub proof fn law_clear_invalidates_all(self, h: Handle)
        ensures
            self.clear().lookup(h) is None,
            self.clear().len() == 0,
            self.clear().as_map() == Map::<Handle, T>::empty(),
    {
        assert(self.clear().as_map() =~= Map::<Handle, T>::empty());
    }

    /// Iteration completeness, first half: every position of the dense store holds
    /// the value of a live handle, and distinct positions belong to distinct handles.
    pub proof fn law_stored_values_are_live(self, p: int)
        requires
            self.wf(),
            0 <= p < self.values.len(),
        ensures
            self.live(self.handle_at(p)),
            self.position_of(self.handle_at(p)) == p,
            self.lookup(self.handle_at(p)) == Some(self.values[p]),
    {
        assert(self.slots[self.owners[p] as int].position == Some(p as nat));
    }

    /// Iteration completeness, second half: the value of every live handle is stored
    /// at exactly one position of the dense store, the one its slot points at.
    pub proof fn law_live_values_are_stored(self, h: Handle)
        requires
            self.wf(),
            self.live(h),
        ensures
            0 <= self.position_of(h) < self.values.len(),
            self.handle_at(self.position_of(h) as int) == h,
            forall|p: int| 0 <= p < self.values.len() && self.handle_at(p) == h ==> p
                == self.position_of(h),
    {
        let q = self.position_of(h);
        assert(self.slots[h.slot as int].position == Some(q));
        assert forall|p: int| 0 <= p < self.values.len() && self.handle_at(p) == h implies p
            == q by {
            assert(self.slots[self.owners[p] as int].position == Some(p as nat));
        }
    }

    /// State after one operation.
    pub open spec fn apply(self, op: Operation<T>) -> Self {
        match op {
            Operation::Insert(value) => self.insert(value),
            Operation::Remove(h) => self.remove(h),
        }
    }

    /// State after the operations of `ops`, in their order.
    pub open spec fn run(self, ops: Seq<Operation<T>>) -> Self
        decreases ops.len(),
    {
        if ops.len() == 0 {
            self
        } else {
            self.run(ops.drop_last()).apply(ops.last())
        }
    }

    /// How many of `ops` are insertions.
    pub open spec fn insertions(ops: Seq<Operation<T>>) -> nat
        decreases ops.len(),
    {
        if ops.len() == 0 {
            0
        } else {
            Self::insertions(ops.drop_last()) + if ops.last() is Insert {
                1nat
            } else {
                0nat
            }
        }
    }

    /// How many of `ops`, run from this state, are removals that find their handle
    /// live and so remove a value.
    pub open spec fn removals(self, ops: Seq<Operation<T>>) -> nat
        decreases ops.len(),
    {
        if ops.len() == 0 {
            0
        } else {
            self.removals(ops.drop_last()) + if ops.last() matches Operation::Remove(h)
                && self.run(ops.drop_last()).live(h) {
                1nat
            } else {
                0nat
            }
        }
    }

    /// Length invariant: after any interleaving of insertions and removals, the
    /// number of live values is the number there was, plus the insertions, minus the
    /// removals that removed a value.
    pub proof fn law_length(self, ops: Seq<Operation<T>>)
        requires
            self.wf(),
        ensures
            self.run(ops).wf(),
            self.run(ops).len() + self.removals(ops) == self.len() + Self::insertions(ops),
        decreases ops.len(),
    {
        if ops.len() > 0 {
            let before = self.run(ops.drop_last());
            self.law_length(ops.drop_last());
            match ops.last() {
                Operation::Insert(value) => {
                    before.lemma_insert_wf(value);
                },
                Operation::Remove(h) => {
                    before.lemma_remove_wf(h);
                },
            }
        }
    }

    /// Iteration completeness: the values of the dense store, which is what an
    /// iteration yields, are as a multiset exactly the values of the live handles,
    /// each counted once for each handle that resolves to it.
    pub proof fn law_iteration_complete(self)
        requires
            self.wf(),
        ensures
            self.as_map().dom().finite(),
            self.as_map().dom().len() == self.values.len(),
            self.values.to_multiset() == values_of(self.as_map()),
        decreases self.values.len(),
    {
        if self.values.len() == 0 {
            assert forall|h: Handle| !self.live(h) by {
                if self.live(h) {
                    assert(self.slots[h.slot as int].position is Some);
                }
            }
            assert(self.as_map().dom() =~= Set::<Handle>::empty());
            lemma_values_of_empty(self.as_map());
            assert(self.values =~= Seq::<T>::empty());
            self.values.to_multiset_ensures();
            assert(self.values.to_multiset() =~= vstd::multiset::Multiset::<T>::empty());
        } else {
            let last = self.values.len() - 1;
            let h = self.handle_at(last);
            self.law_stored_values_are_live(last);
            let rest = self.remove(h);
            self.lemma_remove_wf(h);
            self.lemma_remove_as_map(h);
            assert(rest.values =~= self.values.drop_last());
            rest.law_iteration_complete();
            assert(self.as_map().dom() =~= rest.as_map().dom().insert(h));
            lemma_values_of_remove(self.as_map(), h);
            assert(self.values =~= self.values.drop_last().push(self.values[last]));
            to_multiset_build(self.values.drop_last(), self.values[last]);
        }
    }
}

} // verus!
