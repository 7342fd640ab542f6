//! Trusted interface to the `bitvec` crate, which stores the occupancy grid
//! as a packed bit-vector. Verus refuses a declaration of `BitVec` itself
//! (its generic bounds are traits of the outside crate), so the vector sits
//! in the opaque [`BitGrid`]. Verified code sees it only through
//! [`bits_of`], the sequence of bits it holds, and the three wrappers below.

use vstd::prelude::*;

verus! {

/// A packed vector of bits, backed by `bitvec::vec::BitVec`.
#[verifier::external_body]
pub struct BitGrid {
    bits: bitvec::vec::BitVec,
}

/// The sequence of bits a [`BitGrid`] holds, in index order.
pub uninterp spec fn bits_of(v: BitGrid) -> Seq<bool>;

/// Relies on bitvec's `BitVec::new`: an empty bit-vector.
#[verifier::external_body]
pub(crate) fn bv_new() -> (r: BitGrid)
    ensures
        bits_of(r) == Seq::<bool>::empty(),
{
    BitGrid { bits: bitvec::vec::BitVec::new() }
}

/// Relies on bitvec's `BitVec::push`: appends one bit at the end. It panics
/// only when the length would pass `BitSlice::MAX_BITS`, which is
/// `usize::MAX / 8`; the precondition keeps that out.
#[verifier::external_body]
pub(crate) fn bv_push(v: &mut BitGrid, bit: bool)
    requires
        bits_of(*old(v)).len() < usize::MAX / 8,
    ensures
        bits_of(*final(v)) == bits_of(*old(v)).push(bit),
{
    v.bits.push(bit)
}

/// Relies on bitvec's `Index<usize>` for `BitSlice`, reached through
/// `Deref`: the bit at the given in-range index.
#[verifier::external_body]
pub(crate) fn bv_get(v: &BitGrid, index: usize) -> (r: bool)
    requires
        index < bits_of(*v).len(),
    ensures
        r == bits_of(*v)[index as int],
{
    v.bits[index]
}

} // verus!
