//! What this crate assumes of the standard library's mutable slice iterator.

use vstd::prelude::*;
use vstd::std_specs::iter::IteratorSpec;

verus! {

/// `core::slice::IterMut`, taken as an opaque value. What it will yield is spoken
/// of through `remaining`, the name that vstd gives to the items of an iterator.
#[verifier::external_type_specification]
#[verifier::external_body]
#[verifier::reject_recursive_types(T)]
pub struct ExIterMut<'a, T: 'a>(core::slice::IterMut<'a, T>);

/// Calls `iter_mut` on the slice. The iterator yields one mutable reference to each
/// element, from the first to the last: each reference holds its element as it is
/// now, and when the borrow ends each element is what its reference was left at.
/// The slice keeps its length.
#[verifier::external_body]
pub(crate) fn slice_iter_mut<'a, T>(slice: &'a mut [T]) -> (it: core::slice::IterMut<'a, T>)
    ensures
        it.remaining().len() == old(slice)@.len(),
        forall|i: int|
            #![trigger it.remaining()[i]]
            0 <= i < old(slice)@.len() ==> *it.remaining()[i] == old(slice)@[i],
        final(slice)@.len() == old(slice)@.len(),
        forall|i: int|
            #![trigger it.remaining()[i]]
            0 <= i < old(slice)@.len() ==> final(slice)@[i] == *final(it.remaining()[i]),
{
    slice.iter_mut()
}

} // verus!
