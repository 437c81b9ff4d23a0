//! A non-compacting slot map that records occupancy in a bit vector.
//!
//! Each cell holds either a value or a link of the free list, and a bit vector of
//! the same length says which. A value never moves, so its cell's index is its
//! handle; a caller's key type only has to convert to and from that index.

use crate::bits::bits;
use crate::cells::Cells;
use core::marker::PhantomData;
use smallbitvec::SmallBitVec;
use vstd::prelude::*;
use vstd::std_specs::convert::{FromSpec, IntoSpec};
use vstd::std_specs::iter::IteratorSpec;

verus! {

/// What a cell holds.
enum Cell<V> {
    /// A stored value.
    Value(V),
    /// A hole; the index is that of the hole to refill after it, or the cell count.
    FreeLink(usize),
}

impl<V> Cell<V> {
    spec fn content(self) -> Option<V> {
        match self {
            Cell::Value(value) => Some(value),
            Cell::FreeLink(_) => None,
        }
    }
}

/// Non-compacting slot map with keys of type `K`.
pub struct BvMap<K, V> {
    next_free: usize,
    bitvec: SmallBitVec,
    vec: Vec<Cell<V>>,
    free: Ghost<Seq<nat>>,
    marker: PhantomData<K>,
}

impl<K, V> View for BvMap<K, V> {
    type V = Cells<V>;

    closed spec fn view(&self) -> Cells<V> {
        Cells {
            cells: Seq::new(self.vec@.len(), |i: int| self.vec@[i].content()),
            free: self.free@,
        }
    }
}

/// The largest number of cells to which a cell may still be added: the bit vector
/// doubles its storage as it grows, and twice the count, in whole words, must fit
/// in `usize`.
pub const MAX_CELLS: usize = (usize::MAX - 64) / 2;

impl<K, V> BvMap<K, V> {
    /// The hole after the `i`-th of the free list, or the cell count at its end.
    spec fn link_after(&self, i: int) -> int {
        if i + 1 < self.free@.len() {
            self.free@[i + 1] as int
        } else {
            self.vec@.len() as int
        }
    }

    /// The representation invariant: the model is well formed, the bit vector says
    /// of each cell whether it holds a value, and the links in the holes spell out
    /// the free list.
    pub closed spec fn wf(&self) -> bool {
        &&& self@.wf()
        &&& bits(self.bitvec).len() == self.vec@.len()
        &&& forall|i: int|
            0 <= i < self.vec@.len() ==> #[trigger] bits(self.bitvec)[i] == (
            self.vec@[i] is Value)
        &&& self.next_free == self.link_after(-1)
        &&& forall|i: int|
            0 <= i < self.free@.len() ==> #[trigger] self.vec@[self.free@[i] as int]
                == Cell::<V>::FreeLink(self.link_after(i) as usize)
    }

    /// A well-formed map has a well-formed model, so that what is proved of
    /// [`Cells`] holds of its view.
    pub proof fn lemma_model_wf(&self)
        requires
            self.wf(),
        ensures
            self@.wf(),
    {
    }

    /// Number of cells, occupied or not.
    pub fn cell_count(&self) -> (n: usize)
        ensures
            n == self@.cells.len(),
    {
        self.vec.len()
    }

    /// Stores `value` and returns the index of its cell: the hole vacated most
    /// recently, or a new cell at the end when there is no hole.
    pub fn insert_index(&mut self, value: V) -> (index: usize)
        requires
            old(self).wf(),
            old(self)@.cells.len() <= MAX_CELLS,
        ensures
            final(self).wf(),
            final(self)@ == old(self)@.insert(value),
            index == old(self)@.next_index(),
    {
        let next_free = self.next_free;
        if next_free == self.vec.len() {
            self.vec.push(Cell::Value(value));
            self.bitvec.push(true);
            self.next_free = next_free + 1;
        } else {
            assert(old(self).free@.len() > 0);
            assert(old(self).vec@[old(self).free@[0] as int] == Cell::<V>::FreeLink(
                old(self).link_after(0) as usize,
            ));
            let link = match &self.vec[next_free] {
                Cell::FreeLink(link) => *link,
                Cell::Value(_) => unreached(),
            };
            self.vec[next_free] = Cell::Value(value);
            self.next_free = link;
            self.bitvec.set(next_free, true);
            self.free = Ghost(self.free@.drop_first());
            proof {
                assert forall|i: int| 0 <= i < self.free@.len() implies (
                #[trigger] self.vec@[self.free@[i] as int]) == Cell::<V>::FreeLink(
                    self.link_after(i) as usize,
                ) by {
                    assert(self.free@[i] == old(self).free@[i + 1]);
                    assert(old(self).free@[0] != old(self).free@[i + 1]);
                    assert(self.link_after(i) == old(self).link_after(i + 1));
                }
            }
        }
        proof {
            assert(self@.cells =~= old(self)@.insert(value).cells);
            old(self)@.lemma_insert_wf(value);
        }
        next_free
    }

    /// The value in the cell at `index`, or `None` when there is no such cell or it
    /// is a hole.
    pub fn get_index(&self, index: usize) -> (value: Option<&V>)
        requires
            self.wf(),
        ensures
            value.is_some() == self@.live(index as nat),
            value matches Some(v) ==> self@.lookup(index as nat) == Some(*v),
    {
        match self.bitvec.get(index) {
            Some(true) => match &self.vec[index] {
                Cell::Value(value) => Some(value),
                Cell::FreeLink(_) => unreached(),
            },
            _ => None,
        }
    }

    /// Removes the value in the cell at `index` and returns it. The cell becomes the
    /// first hole to be refilled. Where `index` names no value, nothing changes.
    pub fn remove_index(&mut self, index: usize) -> (removed: Option<V>)
        requires
            old(self).wf(),
        ensures
            final(self).wf(),
            final(self)@ == old(self)@.remove(index as nat),
            removed == old(self)@.lookup(index as nat),
    {
        match self.bitvec.get(index) {
            Some(true) => {
                self.bitvec.set(index, false);
                let mut cell = Cell::FreeLink(self.next_free);
                core::mem::swap(&mut self.vec[index], &mut cell);
                self.next_free = index;
                self.free = Ghost(seq![index as nat] + self.free@);
                proof {
                    assert(self@.cells =~= old(self)@.remove(index as nat).cells);
                    old(self)@.lemma_remove_wf(index as nat);
                    assert forall|i: int| 0 <= i < self.free@.len() implies (
                    #[trigger] self.vec@[self.free@[i] as int]) == Cell::<V>::FreeLink(
                        self.link_after(i) as usize,
                    ) by {
                        if i > 0 {
                            assert(self.free@[i] == old(self).free@[i - 1]);
                            assert(self.link_after(i) == old(self).link_after(i - 1));
                        } else {
                            assert(self.link_after(0) == old(self).link_after(-1));
                        }
                    }
                }
                match cell {
                    Cell::Value(value) => Some(value),
                    Cell::FreeLink(_) => unreached(),
                }
            },
            _ => None,
        }
    }
}

impl<K: Into<usize> + From<usize>, V> BvMap<K, V> {
    /// Creates an empty map.
    pub fn new() -> (map: BvMap<K, V>)
        ensures
            map.wf(),
            map@ == Cells::<V>::empty(),
    {
        let map = BvMap {
            next_free: 0,
            bitvec: SmallBitVec::new(),
            vec: Vec::new(),
            free: Ghost(Seq::empty()),
            marker: PhantomData,
        };
        assert(map@.cells =~= Seq::empty());
        map
    }

    /// Stores `value` and returns the key that `K` makes of the index of its cell.
    pub fn insert(&mut self, value: V) -> (key: K)
        requires
            old(self).wf(),
            old(self)@.cells.len() <= MAX_CELLS,
        ensures
            final(self).wf(),
            final(self)@ == old(self)@.insert(value),
            call_ensures(K::from, (old(self)@.next_index() as usize,), key),
            K::obeys_from_spec() ==> key == K::from_spec(old(self)@.next_index() as usize),
    {
        let index = self.insert_index(value);
        K::from(index)
    }

    /// The value in the cell whose index `key` converts to, or `None` when that
    /// index names no value.
    pub fn get(&self, key: K) -> (value: Option<&V>)
        requires
            self.wf(),
        ensures
            exists|index: usize|
                {
                    &&& call_ensures(K::into, (key,), index)
                    &&& K::obeys_into_spec() ==> index == key.into_spec()
                    &&& value.is_some() == #[trigger] self@.live(index as nat)
                    &&& value matches Some(v) ==> self@.lookup(index as nat) == Some(*v)
                },
    {
        let index: usize = key.into();
        self.get_index(index)
    }

    /// Removes the value in the cell whose index `key` converts to and returns it.
    /// Where that index names no value, nothing changes.
    pub fn remove(&mut self, key: K) -> (removed: Option<V>)
        requires
            old(self).wf(),
        ensures
            final(self).wf(),
            exists|index: usize|
                {
                    &&& call_ensures(K::into, (key,), index)
                    &&& K::obeys_into_spec() ==> index == key.into_spec()
                    &&& final(self)@ == #[trigger] old(self)@.remove(index as nat)
                    &&& removed == old(self)@.lookup(index as nat)
                },
    {
        let index: usize = key.into();
        self.remove_index(index)
    }

    /// The stored values in ascending order of their cells' indices, holes skipped.
    pub fn iter(&self) -> (it: std::vec::IntoIter<&V>)
        requires
            self.wf(),
        ensures
            it.remaining().unref() == self@.live_values(),
    {
        let mut found: Vec<&V> = Vec::new();
        let n = self.vec.len();
        let mut i: usize = 0;
        while i < n
            invariant
                i <= n,
                n == self.vec@.len(),
                self.wf(),
                found@.unref() == self@.values_below(i as nat),
            decreases n - i,
        {
            match self.bitvec.get(i) {
                Some(true) => match &self.vec[i] {
                    Cell::Value(value) => {
                        found.push(value);
                    },
                    Cell::FreeLink(_) => unreached(),
                },
                _ => {},
            }
            i += 1;
            assert(found@.unref() =~= self@.values_below(i as nat));
        }
        found.into_iter()
    }
}

impl<K, V> Default for BvMap<K, V> {
    /// The empty map.
    fn default() -> (map: Self)
        ensures
            map.wf(),
            map@ == Cells::<V>::empty(),
    {
        let map = BvMap {
            next_free: 0,
            bitvec: SmallBitVec::new(),
            vec: Vec::new(),
            free: Ghost(Seq::empty()),
            marker: PhantomData,
        };
        assert(map@.cells =~= Seq::empty());
        map
    }
}

impl<K, V: Clone> Clone for BvMap<K, V> {
    /// The clone has the holes of `self`, to be refilled in the same order, and in
    /// every other cell a clone of the value that `self` holds there.
    fn clone(&self) -> (res: Self)
        ensures
            self.wf() ==> res.wf(),
            res@.free == self@.free,
            res@.cells.len() == self@.cells.len(),
            forall|i: int|
                0 <= i < self@.cells.len() ==> match #[trigger] self@.cells[i] {
                    Some(value) => res@.cells[i] is Some && cloned(value, res@.cells[i]->0),
                    None => res@.cells[i] is None,
                },
    {
        let n = self.vec.len();
        let mut vec: Vec<Cell<V>> = Vec::with_capacity(n);
        let mut i: usize = 0;
        while i < n
            invariant
                i <= n,
                n == self.vec@.len(),
                vec@.len() == i,
                forall|j: int|
                    0 <= j < i ==> match #[trigger] self.vec@[j] {
                        Cell::Value(value) => vec@[j] is Value && cloned(value, vec@[j]->Value_0),
                        Cell::FreeLink(link) => vec@[j] == Cell::<V>::FreeLink(link),
                    },
            decreases n - i,
        {
            let cell = match &self.vec[i] {
                Cell::Value(value) => Cell::Value(value.clone()),
                Cell::FreeLink(link) => Cell::FreeLink(*link),
            };
            vec.push(cell);
            i += 1;
        }
        let res = BvMap {
            next_free: self.next_free,
            bitvec: self.bitvec.clone(),
            vec,
            free: Ghost(self.free@),
            marker: PhantomData,
        };
        proof {
            assert forall|j: int| 0 <= j < self@.cells.len() implies match (
            #[trigger] self@.cells[j]) {
                Some(value) => res@.cells[j] is Some && cloned(value, res@.cells[j]->0),
                None => res@.cells[j] is None,
            } by {
                assert(self@.cells[j] == self.vec@[j].content());
                assert(res@.cells[j] == res.vec@[j].content());
            }
            if self.wf() {
                assert forall|j: int| 0 <= j < res.free@.len() implies (
                #[trigger] res.vec@[res.free@[j] as int]) == Cell::<V>::FreeLink(
                    res.link_after(j) as usize,
                ) by {
                    let f = self.free@[j] as int;
                    assert(self.vec@[f] == Cell::<V>::FreeLink(self.link_after(j) as usize));
                }
                assert forall|j: int| 0 <= j < res.vec@.len() implies #[trigger] bits(
                    res.bitvec,
                )[j] == (res.vec@[j] is Value) by {
                    assert(bits(self.bitvec)[j] == (self.vec@[j] is Value));
                }
                assert forall|j: int| 0 <= j < res@.free.len() implies (#[trigger] res@.free[j])
                    < res@.cells.len() && res@.cells[res@.free[j] as int] is None by {
                    let f = self.free@[j] as int;
                    assert(self@.cells[f] is None);
                    assert(self.vec@[f] == Cell::<V>::FreeLink(self.link_after(j) as usize));
                }
            }
        }
        res
    }
}

} // verus!
