//! Mathematical model of a non-compacting allocator.
//!
//! A value stays in the cell it was put in: the index of the cell is the handle.
//! A removal leaves a hole, and holes are refilled most recent first. There are no
//! generations, so an index whose cell was vacated and refilled resolves to the new
//! value.

use crate::bag::{lemma_values_of_empty, lemma_values_of_remove, values_of};
use vstd::prelude::*;
use vstd::seq_lib::to_multiset_build;

verus! {

/// Abstract state of a non-compacting allocator.
pub struct Cells<V> {
    /// The cells: `Some` for a stored value, `None` for a hole.
    pub cells: Seq<Option<V>>,
    /// The holes in the order in which they will be refilled, next first.
    pub free: Seq<nat>,
}

/// One step of a caller's use of an allocator.
pub enum Step<V> {
    /// Store the value.
    Insert(V),
    /// Remove what the index names, if its cell holds a value.
    Remove(nat),
}

impl<V> Cells<V> {
    /// The state with no cells.
    pub open spec fn empty() -> Self {
        Cells { cells: Seq::empty(), free: Seq::empty() }
    }

    /// The free list names holes only, and each at most once.
    pub open spec fn wf(self) -> bool {
        &&& forall|i: int|
            0 <= i < self.free.len() ==> (#[trigger] self.free[i]) < self.cells.len()
                && self.cells[self.free[i] as int] is None
        &&& forall|i: int, j: int|
            0 <= i < j < self.free.len() ==> #[trigger] self.free[i] != #[trigger] self.free[j]
    }

    /// Whether the cell at `index` exists and holds a value.
    pub open spec fn live(self, index: nat) -> bool {
        index < self.cells.len() && self.cells[index as int] is Some
    }

    /// The value that `index` resolves to, if its cell holds one.
    pub open spec fn lookup(self, index: nat) -> Option<V> {
        if self.live(index) {
            self.cells[index as int]
        } else {
            None
        }
    }

    /// The occupied cells with their values.
    pub open spec fn as_map(self) -> Map<nat, V> {
        Map::new(|index: nat| self.live(index), |index: nat| self.cells[index as int]->0)
    }

    /// The values of the first `n` cells that hold one, in ascending order of index.
    pub open spec fn values_below(self, n: nat) -> Seq<V>
        decreases n,
    {
        if n == 0 {
            Seq::empty()
        } else {
            let rest = self.values_below((n - 1) as nat);
            match self.cells[n - 1] {
                Some(value) => rest.push(value),
                None => rest,
            }
        }
    }

    /// The stored values in ascending order of index, holes skipped.
    pub open spec fn live_values(self) -> Seq<V> {
        self.values_below(self.cells.len())
    }

    /// Number of stored values.
    pub open spec fn len(self) -> nat {
        self.live_values().len()
    }

    /// The occupied cells among the first `n`, with their values.
    pub open spec fn as_map_below(self, n: nat) -> Map<nat, V> {
        Map::new(
            |index: nat| index < n && self.live(index),
            |index: nat| self.cells[index as int]->0,
        )
    }

    /// The index that the next insertion will return: the hole vacated most
    /// recently, or a new cell at the end when there is no hole.
    pub open spec fn next_index(self) -> nat {
        if self.free.len() == 0 {
            self.cells.len()
        } else {
            self.free[0]
        }
    }

    /// State after inserting `value` at [`Cells::next_index`].
    pub open spec fn insert(self, value: V) -> Self {
        if self.free.len() == 0 {
            Cells { cells: self.cells.push(Some(value)), free: self.free }
        } else {
            Cells {
                cells: self.cells.update(self.free[0] as int, Some(value)),
                free: self.free.drop_first(),
            }
        }
    }

    /// State after removing what `index` names. The cell becomes a hole and the
    /// first to be refilled. An index that names no value leaves the state as it is.
    pub open spec fn remove(self, index: nat) -> Self {
        if self.live(index) {
            Cells { cells: self.cells.update(index as int, None), free: seq![index] + self.free }
        } else {
            self
        }
    }

    /// Insertion keeps the state well formed.
    pub proof fn lemma_insert_wf(self, value: V)
        requires
            self.wf(),
        ensures
            self.insert(value).wf(),
    {
        let a = self.insert(value);
        if self.free.len() > 0 {
            assert forall|i: int| 0 <= i < a.free.len() implies (#[trigger] a.free[i])
                < a.cells.len() && a.cells[a.free[i] as int] is None by {
                assert(a.free[i] == self.free[i + 1]);
                assert(self.free[0] != self.free[i + 1]);
            }
            assert forall|i: int, j: int| 0 <= i < j < a.free.len() implies #[trigger] a.free[i]
                != #[trigger] a.free[j] by {
                assert(a.free[i] == self.free[i + 1]);
                assert(a.free[j] == self.free[j + 1]);
            }
        }
    }

    /// Removal keeps the state well formed.
    pub proof fn lemma_remove_wf(self, index: nat)
        requires
            self.wf(),
        ensures
            self.remove(index).wf(),
    {
        let a = self.remove(index);
        if self.live(index) {
            assert forall|i: int| 0 <= i < a.free.len() implies (#[trigger] a.free[i])
                < a.cells.len() && a.cells[a.free[i] as int] is None by {
                if i > 0 {
                    assert(a.free[i] == self.free[i - 1]);
                }
            }
            assert forall|i: int, j: int| 0 <= i < j < a.free.len() implies #[trigger] a.free[i]
                != #[trigger] a.free[j] by {
                assert(a.free[j] == self.free[j - 1]);
                if i > 0 {
                    assert(a.free[i] == self.free[i - 1]);
                }
            }
        }
    }

    /// Round trip: the index that an insertion returns resolves to the inserted
    /// value, and every index that named a value before resolves to what it did.
    pub proof fn law_insert_round_trip(self, value: V)
        requires
            self.wf(),
        ensures
            self.insert(value).lookup(self.next_index()) == Some(value),
            forall|index: nat|
                self.live(index) ==> self.insert(value).lookup(index) == self.lookup(index),
    {
        if self.free.len() > 0 {
            assert(self.cells[self.free[0] as int] is None);
        }
    }

    /// Removal invalidates: a removed index resolves to nothing, and removing it a
    /// second time finds nothing and changes nothing.
    pub proof fn law_remove_invalidates(self, index: nat)
        requires
            self.live(index),
        ensures
            self.remove(index).lookup(index) is None,
            self.remove(index).remove(index) == self.remove(index),
    {
    }

    /// Removal preserves siblings: every other index resolves to what it resolved
    /// to before.
    pub proof fn law_remove_preserves_others(self, index: nat, other: nat)
        requires
            other != index,
        ensures
            self.remove(index).lookup(other) == self.lookup(other),
    {
    }

    /// No staleness detection: an insertion that follows a removal refills the
    /// vacated cell, and the removed index resolves to the new value.
    pub proof fn law_hole_is_refilled(self, index: nat, value: V)
        requires
            self.wf(),
            self.live(index),
        ensures
            self.remove(index).next_index() == index,
            self.remove(index).insert(value).lookup(index) == Some(value),
    {
        assert(self.remove(index).free[0] == index);
    }

    /// The values of the first `n` cells depend on those cells only.
    pub proof fn lemma_values_below_agree(self, other: Self, n: nat)
        requires
            n <= self.cells.len(),
            n <= other.cells.len(),
            forall|j: int| 0 <= j < n ==> self.cells[j] == other.cells[j],
        ensures
            self.values_below(n) == other.values_below(n),
        decreases n,
    {
        if n > 0 {
            self.lemma_values_below_agree(other, (n - 1) as nat);
        }
    }

    /// Overwriting one cell changes the number of values among the first `n` cells
    /// by what that cell gains or loses, if it is one of them.
    pub proof fn lemma_values_below_len_update(self, index: nat, content: Option<V>, n: nat)
        requires
            index < self.cells.len(),
            n <= self.cells.len(),
        ensures
            ({
                let other = Cells { cells: self.cells.update(index as int, content), ..self };
                other.values_below(n).len() + (if index < n && self.cells[index as int] is Some {
                    1nat
                } else {
                    0nat
                }) == self.values_below(n).len() + (if index < n && content is Some {
                    1nat
                } else {
                    0nat
                })
            }),
        decreases n,
    {
        if n > 0 {
            self.lemma_values_below_len_update(index, content, (n - 1) as nat);
        }
    }

    /// An insertion adds one to the number of stored values.
    pub proof fn lemma_insert_len(self, value: V)
        requires
            self.wf(),
        ensures
            self.insert(value).len() == self.len() + 1,
    {
        let a = self.insert(value);
        if self.free.len() == 0 {
            self.lemma_values_below_agree(a, self.cells.len());
        } else {
            assert(self.cells[self.free[0] as int] is None);
            self.lemma_values_below_len_update(self.free[0], Some(value), self.cells.len());
            let same_free = Cells { cells: a.cells, ..self };
            same_free.lemma_values_below_agree(a, self.cells.len());
        }
    }

    /// A removal takes one from the number of stored values when it finds a value,
    /// and leaves the number as it is when it does not.
    pub proof fn lemma_remove_len(self, index: nat)
        ensures
            self.remove(index).len() + (if self.live(index) {
                1nat
            } else {
                0nat
            }) == self.len(),
    {
        if self.live(index) {
            self.lemma_values_below_len_update(index, None, self.cells.len());
            let a = self.remove(index);
            let same_free = Cells { cells: a.cells, ..self };
            same_free.lemma_values_below_agree(a, self.cells.len());
        }
    }

    /// State after one step.
    pub open spec fn apply(self, step: Step<V>) -> Self {
        match step {
            Step::Insert(value) => self.insert(value),
            Step::Remove(index) => self.remove(index),
        }
    }

    /// State after the steps of `steps`, in their order.
    pub open spec fn run(self, steps: Seq<Step<V>>) -> Self
        decreases steps.len(),
    {
        if steps.len() == 0 {
            self
        } else {
            self.run(steps.drop_last()).apply(steps.last())
        }
    }

    /// How many of `steps` are insertions.
    pub open spec fn insertions(steps: Seq<Step<V>>) -> nat
        decreases steps.len(),
    {
        if steps.len() == 0 {
            0
        } else {
            Self::insertions(steps.drop_last()) + if steps.last() is Insert {
                1nat
            } else {
                0nat
            }
        }
    }

    /// How many of `steps`, run from this state, are removals that find a value.
    pub open spec fn removals(self, steps: Seq<Step<V>>) -> nat
        decreases steps.len(),
    {
        if steps.len() == 0 {
            0
        } else {
            self.removals(steps.drop_last()) + if steps.last() matches Step::Remove(index)
                && self.run(steps.drop_last()).live(index) {
                1nat
            } else {
                0nat
            }
        }
    }

    /// Length invariant: after any interleaving of insertions and removals, the
    /// number of stored values is the number there was, plus the insertions, minus
    /// the removals that found a value.
    pub proof fn law_length(self, steps: Seq<Step<V>>)
        requires
            self.wf(),
        ensures
            self.run(steps).wf(),
            self.run(steps).len() + self.removals(steps) == self.len() + Self::insertions(steps),
        decreases steps.len(),
    {
        if steps.len() > 0 {
            let before = self.run(steps.drop_last());
            self.law_length(steps.drop_last());
            match steps.last() {
                Step::Insert(value) => {
                    before.lemma_insert_wf(value);
                    before.lemma_insert_len(value);
                },
                Step::Remove(index) => {
                    before.lemma_remove_wf(index);
                    before.lemma_remove_len(index);
                },
            }
        }
    }

    /// The values of the first `n` cells are, as a multiset, the values of the
    /// occupied cells among them.
    pub proof fn lemma_values_below_complete(self, n: nat)
        requires
            n <= self.cells.len(),
        ensures
            self.as_map_below(n).dom().finite(),
            self.values_below(n).to_multiset() == values_of(self.as_map_below(n)),
        decreases n,
    {
        if n == 0 {
            assert(self.as_map_below(n).dom() =~= Set::<nat>::empty());
            lemma_values_of_empty(self.as_map_below(n));
            self.values_below(n).to_multiset_ensures();
            assert(self.values_below(n).to_multiset() =~= vstd::multiset::Multiset::<V>::empty());
        } else {
            let m = (n - 1) as nat;
            self.lemma_values_below_complete(m);
            match self.cells[m as int] {
                Some(value) => {
                    assert(self.as_map_below(n).dom() =~= self.as_map_below(m).dom().insert(m));
                    lemma_values_of_remove(self.as_map_below(n), m);
                    assert(self.as_map_below(n).remove(m) =~= self.as_map_below(m));
                    to_multiset_build(self.values_below(m), value);
                },
                None => {
                    assert(self.as_map_below(n) =~= self.as_map_below(m));
                },
            }
        }
    }

    /// Iteration completeness: the values that an iteration yields are, as a
    /// multiset, exactly the values of the occupied cells, each counted once for
    /// each cell that holds it.
    pub proof fn law_iteration_complete(self)
        ensures
            self.as_map().dom().finite(),
            self.live_values().to_multiset() == values_of(self.as_map()),
    {
        self.lemma_values_below_complete(self.cells.len());
        assert(self.as_map_below(self.cells.len()) =~= self.as_map());
    }
}

} // verus!
