//! What this crate assumes of the bit vector of the `smallbitvec` crate.
//!
//! Nothing here is proved. Each item states, over the sequence of bits that a
//! vector holds, what the crate's source shows of one of its methods.

use smallbitvec::SmallBitVec;
use vstd::prelude::*;

verus! {

/// `smallbitvec::SmallBitVec`, taken as an opaque value: what it holds is spoken of
/// through [`bits`] only.
#[verifier::external_type_specification]
#[verifier::external_body]
pub struct ExSmallBitVec(SmallBitVec);

/// The bits that a vector holds, first to last.
pub uninterp spec fn bits(v: SmallBitVec) -> Seq<bool>;

/// `SmallBitVec::new` makes a vector that holds no bits.
pub assume_specification[ SmallBitVec::new ]() -> (v: SmallBitVec)
    ensures
        bits(v) == Seq::<bool>::empty(),
;

/// `SmallBitVec::push` appends one bit. It grows the storage to at least double
/// when it is full, and panics where that size, rounded up to whole words, does not
/// fit in `usize`; such lengths are left out.
pub assume_specification[ SmallBitVec::push ](v: &mut SmallBitVec, val: bool)
    requires
        2 * bits(*old(v)).len() + 64 <= usize::MAX,
    ensures
        bits(*final(v)) == bits(*old(v)).push(val),
;

/// `SmallBitVec::get` returns the bit at `n`, or `None` when `n` is not below the
/// length.
pub assume_specification[ SmallBitVec::get ](v: &SmallBitVec, n: usize) -> (bit: Option<bool>)
    ensures
        bit == if n < bits(*v).len() {
            Some(bits(*v)[n as int])
        } else {
            None
        },
;

/// `SmallBitVec::set` overwrites the bit at `n`. It panics when `n` is not below
/// the length; such indices are left out.
pub assume_specification[ SmallBitVec::set ](v: &mut SmallBitVec, n: usize, val: bool)
    requires
        n < bits(*old(v)).len(),
    ensures
        bits(*final(v)) == bits(*old(v)).update(n as int, val),
;

/// Cloning a vector gives one that holds the same bits.
pub assume_specification[ <SmallBitVec as Clone>::clone ](v: &SmallBitVec) -> (copy: SmallBitVec)
    ensures
        bits(copy) == bits(*v),
;

} // verus!
