//! A compacting generational slot map whose position index lives in the slot table.
//!
//! The map behaves as [`crate::naive::NaiveSlotMap`] does. It differs in layout: the
//! back pointer from a dense position to its slot is kept in the slot table entry
//! with the same index as the position, so that one table serves both directions.
//! The map also carries a marker type, by which maps for different purposes get
//! different types.

use crate::arena::{next_generation, Arena, Handle, SlotState};
use crate::slice_mut::slice_iter_mut;
use core::marker::PhantomData;
use vstd::prelude::*;
use vstd::std_specs::iter::IteratorSpec;

verus! {

/// Handle to a value stored in a [`UniqueNaiveSlotMap`].
#[derive(Copy, Clone, Debug, PartialEq, Eq, Structural)]
pub struct Key {
    idx: u32,
    ver: u16,
}

impl View for Key {
    type V = Handle;

    closed spec fn view(&self) -> Handle {
        Handle { slot: self.idx as nat, generation: self.ver }
    }
}

impl Key {
    /// Two keys that name the same slot and generation are the same key.
    pub proof fn lemma_view_injective(self, other: Key)
        ensures
            self@ == other@ <==> self == other,
    {
    }
}

/// What a slot holds besides its generation and its back pointer.
#[derive(Copy, Clone)]
enum Link {
    /// The slot is in use; its value is at `outer` in the dense vector.
    Occupied { outer: u32 },
    /// The slot is free; `next` is the free slot after it, or the slot count.
    Free { next: u32 },
}

#[derive(Copy, Clone)]
struct Slot {
    version: u16,
    link: Link,
    /// The slot that owns the dense position with this entry's index. It means
    /// nothing while the dense vector is shorter than that.
    inner: u32,
}

impl Slot {
    spec fn state(self) -> SlotState {
        SlotState {
            generation: self.version,
            position: match self.link {
                Link::Occupied { outer } => Some(outer as nat),
                Link::Free { .. } => None,
            },
        }
    }
}

/// Compacting generational slot map with a marker type `K`.
pub struct UniqueNaiveSlotMap<K, T> {
    slots: Vec<Slot>,
    data: Vec<T>,
    next_free: u32,
    free: Ghost<Seq<nat>>,
    key_type: PhantomData<K>,
}

impl<K, T> View for UniqueNaiveSlotMap<K, T> {
    type V = Arena<T>;

    closed spec fn view(&self) -> Arena<T> {
        Arena {
            slots: Seq::new(self.slots@.len(), |s: int| self.slots@[s].state()),
            values: self.data@,
            owners: Seq::new(self.data@.len(), |p: int| self.slots@[p].inner as nat),
            free: self.free@,
        }
    }
}

impl<K, T> UniqueNaiveSlotMap<K, T> {
    /// The free slot after the `i`-th of the free list, or the slot count at its end.
    spec fn link_after(&self, i: int) -> int {
        if i + 1 < self.free@.len() {
            self.free@[i + 1] as int
        } else {
            self.slots@.len() as int
        }
    }

    /// The representation invariant: the model is well formed, every index fits in
    /// 32 bits, and the links in the slot table spell out the free list.
    pub closed spec fn wf(&self) -> bool {
        &&& self@.wf()
        &&& self.slots@.len() <= u32::MAX
        &&& self.next_free == self.link_after(-1)
        &&& forall|i: int|
            0 <= i < self.free@.len() ==> (#[trigger] self.slots@[self.free@[i] as int]).link
                == (Link::Free { next: self.link_after(i) as u32 })
    }

    /// A well-formed map has a well-formed model, so that what is proved of
    /// [`Arena`] holds of its view.
    pub proof fn lemma_model_wf(&self)
        requires
            self.wf(),
        ensures
            self@.wf(),
    {
    }

    /// Creates an empty map.
    pub fn new() -> (map: UniqueNaiveSlotMap<K, T>)
        ensures
            map.wf(),
            map@ == Arena::<T>::empty(),
    {
        let map = UniqueNaiveSlotMap {
            slots: Vec::new(),
            data: Vec::new(),
            next_free: 0,
            free: Ghost(Seq::empty()),
            key_type: PhantomData,
        };
        assert(map@.slots =~= Seq::empty());
        assert(map@.owners =~= Seq::empty());
        map
    }

    /// Creates an empty map. The capacity is a hint for the first allocation.
    pub fn with_capacity(capacity: usize) -> (map: UniqueNaiveSlotMap<K, T>)
        ensures
            map.wf(),
            map@ == Arena::<T>::empty(),
    {
        let map = UniqueNaiveSlotMap {
            slots: Vec::with_capacity(capacity),
            data: Vec::with_capacity(capacity),
            next_free: 0,
            free: Ghost(Seq::empty()),
            key_type: PhantomData,
        };
        assert(map@.slots =~= Seq::empty());
        assert(map@.owners =~= Seq::empty());
        map
    }

    /// Number of live values.
    pub fn len(&self) -> (n: usize)
        ensures
            n == self@.len(),
    {
        self.data.len()
    }

    /// Stores `value` and returns its handle. A free slot is reused in the generation
    /// it was left in; when none is free, a new slot starts in generation zero.
    pub fn insert(&mut self, value: T) -> (key: Key)
        requires
            old(self).wf(),
            old(self)@.len() < u32::MAX,
        ensures
            final(self).wf(),
            final(self)@ == old(self)@.insert(value),
            key@ == old(self)@.next_handle(),
    {
        let index = self.data.len() as u32;
        self.data.push(value);
        if self.next_free as usize == self.slots.len() {
            self.slots.push(
                Slot { version: 0, link: Link::Occupied { outer: index }, inner: index },
            );
            self.next_free = index + 1;
            proof {
                assert(self@.slots =~= old(self)@.insert(value).slots);
                assert(self@.owners =~= old(self)@.insert(value).owners);
                old(self)@.lemma_insert_wf(value);
            }
            Key { idx: index, ver: 0 }
        } else {
            let key_index = self.next_free;
            assert(old(self).free@.len() > 0);
            assert(old(self).slots@[old(self).free@[0] as int].link == (Link::Free {
                next: old(self).link_after(0) as u32,
            }));
            let slot = self.slots[key_index as usize];
            let next = match slot.link {
                Link::Free { next } => next,
                Link::Occupied { .. } => unreached(),
            };
            self.slots[key_index as usize].link = Link::Occupied { outer: index };
            self.slots[index as usize].inner = key_index;
            self.next_free = next;
            self.free = Ghost(self.free@.drop_first());
            proof {
                assert(self@.slots =~= old(self)@.insert(value).slots);
                assert(self@.owners =~= old(self)@.insert(value).owners);
                old(self)@.lemma_insert_wf(value);
                assert forall|i: int| 0 <= i < self.free@.len() implies (
                #[trigger] self.slots@[self.free@[i] as int]).link == (Link::Free {
                    next: self.link_after(i) as u32,
                }) by {
                    assert(self.free@[i] == old(self).free@[i + 1]);
                    assert(old(self).free@[0] != old(self).free@[i + 1]);
                    assert(self.link_after(i) == old(self).link_after(i + 1));
                }
            }
            Key { idx: key_index, ver: slot.version }
        }
    }

    /// Removes the value that `key` names and returns it. A key that is not live
    /// returns `None` and changes nothing.
    pub fn remove(&mut self, key: Key) -> (removed: Option<T>)
        requires
            old(self).wf(),
        ensures
            final(self).wf(),
            final(self)@ == old(self)@.remove(key@),
            removed == old(self)@.lookup(key@),
    {
        let i = key.idx as usize;
        if i >= self.slots.len() {
            return None;
        }
        let slot = self.slots[i];
        if slot.version != key.ver {
            return None;
        }
        match slot.link {
            Link::Free { .. } => None,
            Link::Occupied { outer } => {
                let p = outer as usize;
                assert(old(self)@.slots[i as int].position == Some(p as nat));
                let removed = self.data.swap_remove(p);
                let last = self.data.len();
                let moved = self.slots[last].inner;
                assert(old(self)@.owners[last as int] == moved);
                self.slots[p].inner = moved;
                self.slots[moved as usize].link = Link::Occupied { outer };
                self.slots[i].version = slot.version.wrapping_add(1);
                self.slots[i].link = Link::Free { next: self.next_free };
                self.next_free = key.idx;
                self.free = Ghost(seq![key.idx as nat] + self.free@);
                proof {
                    let after = old(self)@.remove(key@);
                    assert(self@.slots =~= after.slots);
                    assert forall|q: int| 0 <= q < after.owners.len() implies self@.owners[q]
                        == after.owners[q] by {
                        assert(old(self)@.owners[q] == old(self).slots@[q].inner);
                    }
                    assert(self@.owners =~= after.owners);
                    assert(self@.values =~= after.values);
                    old(self)@.lemma_remove_wf(key@);
                    assert forall|j: int| 0 <= j < self.free@.len() implies (
                    #[trigger] self.slots@[self.free@[j] as int]).link == (Link::Free {
                        next: self.link_after(j) as u32,
                    }) by {
                        if j > 0 {
                            let f = old(self).free@[j - 1];
                            assert(self.free@[j] == f);
                            assert(old(self)@.slots[f as int].position is None);
                            assert(self.link_after(j) == old(self).link_after(j - 1));
                        } else {
                            assert(self.link_after(0) == old(self).link_after(-1));
                        }
                    }
                }
                Some(removed)
            },
        }
    }

    /// Removes every value. Each slot moves one generation on, so that no handle
    /// issued before stays live, and the slots are reused in ascending order.
    pub fn clear(&mut self)
        requires
            old(self).wf(),
        ensures
            final(self).wf(),
            final(self)@ == old(self)@.clear(),
    {
        self.data.clear();
        let n = self.slots.len();
        let mut i: usize = 0;
        while i < n
            invariant
                i <= n,
                n == self.slots@.len(),
                n == old(self).slots@.len(),
                n <= u32::MAX,
                self.data@.len() == 0,
                forall|s: int|
                    0 <= s < i ==> (#[trigger] self.slots@[s]).version == next_generation(
                        old(self).slots@[s].version,
                    ) && self.slots@[s].link == (Link::Free { next: (s + 1) as u32 }),
                forall|s: int| i <= s < n ==> #[trigger] self.slots@[s] == old(self).slots@[s],
            decreases n - i,
        {
            let version = self.slots[i].version;
            self.slots[i].version = version.wrapping_add(1);
            self.slots[i].link = Link::Free { next: (i + 1) as u32 };
            i += 1;
        }
        self.next_free = 0;
        self.free = Ghost(Seq::new(n as nat, |s: int| s as nat));
        proof {
            let after = old(self)@.clear();
            assert(self@.slots =~= after.slots);
            assert(self@.owners =~= after.owners);
            assert(self@.values =~= after.values);
            old(self)@.lemma_clear_wf();
        }
    }

    /// The value that `key` names, or `None` when the key is not live.
    pub fn get(&self, key: Key) -> (value: Option<&T>)
        requires
            self.wf(),
        ensures
            value.is_some() == self@.live(key@),
            value matches Some(v) ==> self@.lookup(key@) == Some(*v),
    {
        let i = key.idx as usize;
        if i >= self.slots.len() {
            return None;
        }
        let slot = self.slots[i];
        if slot.version != key.ver {
            return None;
        }
        match slot.link {
            Link::Free { .. } => None,
            Link::Occupied { outer } => {
                assert(self@.slots[i as int].position == Some(outer as nat));
                Some(&self.data[outer as usize])
            },
        }
    }

    /// Mutable access to the value that `key` names, or `None` when the key is not
    /// live. Writing through the reference changes that value and nothing else.
    pub fn get_mut(&mut self, key: Key) -> (value: Option<&mut T>)
        requires
            old(self).wf(),
        ensures
            final(self).wf(),
            value.is_some() == old(self)@.live(key@),
            match value {
                Some(v) => old(self)@.lookup(key@) == Some(*v) && final(self)@ == old(self)@.set(
                    key@,
                    *final(v),
                ),
                None => final(self)@ == old(self)@,
            },
    {
        let i = key.idx as usize;
        if i >= self.slots.len() {
            return None;
        }
        let slot = self.slots[i];
        if slot.version != key.ver {
            return None;
        }
        match slot.link {
            Link::Free { .. } => None,
            Link::Occupied { outer } => {
                assert(self@.slots[i as int].position == Some(outer as nat));
                Some(&mut self.data[outer as usize])
            },
        }
    }

    /// As [`UniqueNaiveSlotMap::get`], for a key whose slot is known to exist: the
    /// caller vouches that the key came from this map.
    pub fn get_unchecked(&self, key: Key) -> (value: Option<&T>)
        requires
            self.wf(),
            key@.slot < self@.slots.len(),
        ensures
            value.is_some() == self@.live(key@),
            value matches Some(v) ==> self@.lookup(key@) == Some(*v),
    {
        let slot = self.slots[key.idx as usize];
        if slot.version != key.ver {
            return None;
        }
        match slot.link {
            Link::Free { .. } => None,
            Link::Occupied { outer } => {
                assert(self@.slots[key.idx as int].position == Some(outer as nat));
                Some(&self.data[outer as usize])
            },
        }
    }

    /// As [`UniqueNaiveSlotMap::get_mut`], for a key whose slot is known to exist:
    /// the caller vouches that the key came from this map.
    pub fn get_unchecked_mut(&mut self, key: Key) -> (value: Option<&mut T>)
        requires
            old(self).wf(),
            key@.slot < old(self)@.slots.len(),
        ensures
            final(self).wf(),
            value.is_some() == old(self)@.live(key@),
            match value {
                Some(v) => old(self)@.lookup(key@) == Some(*v) && final(self)@ == old(self)@.set(
                    key@,
                    *final(v),
                ),
                None => final(self)@ == old(self)@,
            },
    {
        let slot = self.slots[key.idx as usize];
        if slot.version != key.ver {
            return None;
        }
        match slot.link {
            Link::Free { .. } => None,
            Link::Occupied { outer } => {
                assert(self@.slots[key.idx as int].position == Some(outer as nat));
                Some(&mut self.data[outer as usize])
            },
        }
    }

    /// The live values in the order of the dense store.
    pub fn iter(&self) -> (it: core::slice::Iter<'_, T>)
        ensures
            it.remaining().unref() == self@.values,
    {
        self.data.iter()
    }

    /// Mutable access to the live values in the order of the dense store: the
    /// iterator yields one reference to each value, and the map ends up with what
    /// the references are left at. Which handles are live, and where their values are
    /// kept, stays as it is.
    pub fn iter_mut(&mut self) -> (it: core::slice::IterMut<'_, T>)
        requires
            old(self).wf(),
        ensures
            final(self).wf(),
            old(self)@.same_shape(final(self)@),
            it.remaining().len() == old(self)@.values.len(),
            forall|p: int|
                #![trigger it.remaining()[p]]
                0 <= p < old(self)@.values.len() ==> *it.remaining()[p] == old(self)@.values[p],
            forall|p: int|
                #![trigger it.remaining()[p]]
                0 <= p < old(self)@.values.len() ==> final(self)@.values[p] == *final(
                    it.remaining()[p]
                ),
    {
        slice_iter_mut(self.data.as_mut_slice())
    }
}

impl<K, T: Clone> Clone for UniqueNaiveSlotMap<K, T> {
    /// The clone has the handles of `self`, each resolving to a clone of the value
    /// that it resolves to in `self`.
    fn clone(&self) -> (res: Self)
        ensures
            self.wf() ==> res.wf(),
            self@.same_shape(res@),
            forall|p: int| 0 <= p < self@.values.len() ==> cloned(self@.values[p], res@.values[p]),
    {
        let res = UniqueNaiveSlotMap {
            slots: self.slots.clone(),
            data: self.data.clone(),
            key_type: PhantomData,
            next_free: self.next_free,
            free: Ghost(self.free@),
        };
        proof {
            assert(res.slots@ =~= self.slots@);
            assert(res@.slots =~= self@.slots);
            assert(res@.owners =~= self@.owners);
            if self.wf() {
                self@.lemma_same_shape_wf(res@);
            }
        }
        res
    }
}

impl<K, T> vstd::std_specs::core::IndexSpecImpl<Key> for UniqueNaiveSlotMap<K, T> {
    /// Indexing is for keys that are live.
    open spec fn index_req(&self, key: &Key) -> bool {
        self.wf() && self@.live(key@)
    }
}

impl<K, T> core::ops::Index<Key> for UniqueNaiveSlotMap<K, T> {
    type Output = T;

    /// The value that a live key names.
    fn index(&self, key: Key) -> (value: &T)
        ensures
            self@.lookup(key@) == Some(*value),
    {
        match self.get(key) {
            Some(value) => value,
            None => unreached(),
        }
    }
}

impl<K, T> core::ops::IndexMut<Key> for UniqueNaiveSlotMap<K, T> {
    /// Mutable access to the value that a live key names.
    fn index_mut(&mut self, key: Key) -> (value: &mut T)
        requires
            old(self).wf(),
            old(self)@.live(key@),
        ensures
            final(self).wf(),
            old(self)@.lookup(key@) == Some(*value),
            final(self)@ == old(self)@.set(key@, *final(value)),
    {
        match self.get_mut(key) {
            Some(value) => value,
            None => unreached(),
        }
    }
}

impl<'a, K, T> IntoIterator for &'a UniqueNaiveSlotMap<K, T> {
    type Item = &'a T;

    type IntoIter = core::slice::Iter<'a, T>;

    /// The live values in the order of the dense store.
    fn into_iter(self) -> (it: core::slice::Iter<'a, T>)
        ensures
            it.remaining().unref() == self@.values,
    {
        self.iter()
    }
}

impl<'a, K, T> IntoIterator for &'a mut UniqueNaiveSlotMap<K, T> {
    type Item = &'a mut T;

    type IntoIter = core::slice::IterMut<'a, T>;

    /// Mutable access to the live values in the order of the dense store: the
    /// iterator yields one reference to each value, and the map ends up with what
    /// the references are left at.
    fn into_iter(self) -> (it: core::slice::IterMut<'a, T>)
        requires
            old(self).wf(),
        ensures
            final(self).wf(),
            old(self)@.same_shape(final(self)@),
            it.remaining().len() == old(self)@.values.len(),
            forall|p: int|
                #![trigger it.remaining()[p]]
                0 <= p < old(self)@.values.len() ==> *it.remaining()[p] == old(self)@.values[p],
            forall|p: int|
                #![trigger it.remaining()[p]]
                0 <= p < old(self)@.values.len() ==> final(self)@.values[p] == *final(
                    it.remaining()[p]
                ),
    {
        self.iter_mut()
    }
}

} // verus!
