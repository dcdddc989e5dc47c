//! Trusted interface to the `bit_vec` crate's `BitVec`, the filter's packed
//! bit array.
//!
//! The contents of a `BitVec` are modelled as a `Seq<bool>` in index order,
//! named by `bits_of`; the wrappers below state, over that model, what the
//! crate's constructor and its bit accessors do.
use bit_vec::BitVec;
use vstd::prelude::*;

verus! {

#[verifier::external_type_specification]
#[verifier::external_body]
#[verifier::reject_recursive_types(B)]
pub struct ExBitVec<B>(BitVec<B>);

/// The bits held by a `BitVec`, in index order.
pub uninterp spec fn bits_of(bv: BitVec) -> Seq<bool>;

/// Relies on `bit_vec::BitVec::from_elem`: a bit vector of `len` bits, each
/// equal to `bit`.
#[verifier::external_body]
pub(crate) fn bitvec_from_elem(len: usize, bit: bool) -> (bv: BitVec)
    ensures
        bits_of(bv) == Seq::new(len as nat, |i: int| bit),
{
    BitVec::from_elem(len, bit)
}

/// Relies on `bit_vec::BitVec::get`: returns the bit at index `i` when `i` is
/// within bounds (and `None` otherwise, which the precondition rules out).
#[verifier::external_body]
pub(crate) fn bitvec_get(bv: &BitVec, i: usize) -> (bit: bool)
    requires
        i < bits_of(*bv).len(),
    ensures
        bit == bits_of(*bv)[i as int],
{
    bv.get(i).unwrap()
}

/// Relies on `bit_vec::BitVec::set`: writes the bit at index `i`, leaving
/// every other bit unchanged; it panics when `i` is out of bounds, which the
/// precondition rules out.
#[verifier::external_body]
pub(crate) fn bitvec_set(bv: &mut BitVec, i: usize, x: bool)
    requires
        i < bits_of(*old(bv)).len(),
    ensures
        bits_of(*final(bv)) == bits_of(*old(bv)).update(i as int, x),
{
    bv.set(i, x)
}

} // verus!
