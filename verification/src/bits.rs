//! Trusted interface to the `bitvec` crate.
//!
//! Option sets and compatibility rows are bit-vectors backed by
//! `bitvec::vec::BitVec`, held opaquely inside [`Bits`].  The contents of
//! such a value are named by the uninterpreted function [`bits_of`]; every
//! wrapper below states what the underlying `bitvec` call does to those
//! contents.

use vstd::prelude::*;

use crate::bitmath::popcount;

verus! {

/// A bit-vector of tile options, backed by `bitvec::vec::BitVec`.
#[verifier::external_body]
pub struct Bits {
    inner: bitvec::vec::BitVec,
}

/// The bits held by a bit-vector, in index order.
pub uninterp spec fn bits_of(b: Bits) -> Seq<bool>;

/// Relies on bitvec's `BitVec::new`: an empty bit-vector.
#[verifier::external_body]
pub fn bv_empty() -> (r: Bits)
    ensures
        bits_of(r) == Seq::<bool>::empty(),
{
    Bits { inner: bitvec::vec::BitVec::new() }
}

/// Relies on bitvec's `BitVec::repeat`: `len` copies of `bit`.
#[verifier::external_body]
pub fn bv_repeat(bit: bool, len: usize) -> (r: Bits)
    ensures
        bits_of(r) == Seq::new(len as nat, |i: int| bit),
{
    Bits { inner: bitvec::vec::BitVec::repeat(bit, len) }
}

/// Relies on bitvec's `Index<usize>` for bit-slices: the bit at `i`.
#[verifier::external_body]
pub fn bv_get(b: &Bits, i: usize) -> (r: bool)
    requires
        i < bits_of(*b).len(),
    ensures
        r == bits_of(*b)[i as int],
{
    b.inner[i]
}

/// Relies on bitvec's `BitSlice::set`: writes one bit, keeping the rest.
#[verifier::external_body]
pub fn bv_set(b: &mut Bits, i: usize, v: bool)
    requires
        i < bits_of(*old(b)).len(),
    ensures
        bits_of(*final(b)) == bits_of(*old(b)).update(i as int, v),
{
    b.inner.set(i, v)
}

/// Relies on bitvec's `BitSlice::fill`: sets every bit to the given value;
/// called here only to clear.
#[verifier::external_body]
pub fn bv_fill_false(b: &mut Bits)
    ensures
        bits_of(*final(b)) == Seq::new(bits_of(*old(b)).len(), |i: int| false),
{
    b.inner.fill(false)
}

/// Relies on bitvec's `BitSlice::count_ones`: the number of set bits.
#[verifier::external_body]
pub fn bv_count_ones(b: &Bits) -> (r: usize)
    ensures
        r == popcount(bits_of(*b)),
{
    b.inner.count_ones()
}

/// Relies on bitvec's `BitSlice::first_one`: the least set index, if any.
#[verifier::external_body]
pub fn bv_first_one(b: &Bits) -> (r: Option<usize>)
    ensures
        match r {
            Some(i) => i < bits_of(*b).len() && bits_of(*b)[i as int] && forall|j: int|
                0 <= j < i ==> !bits_of(*b)[j],
            None => forall|j: int| 0 <= j < bits_of(*b).len() ==> !bits_of(*b)[j],
        },
{
    b.inner.first_one()
}

/// Relies on bitvec's `BitOrAssign`: pointwise disjunction over equal lengths.
#[verifier::external_body]
pub fn bv_or_assign(b: &mut Bits, o: &Bits)
    requires
        bits_of(*o).len() == bits_of(*old(b)).len(),
    ensures
        bits_of(*final(b)) == Seq::new(
            bits_of(*old(b)).len(),
            |i: int| bits_of(*old(b))[i] || bits_of(*o)[i],
        ),
{
    b.inner |= &o.inner
}

/// Relies on bitvec's `Clone` for `BitVec`: the copy holds the same bits.
#[verifier::external_body]
pub fn bv_clone(b: &Bits) -> (r: Bits)
    ensures
        bits_of(r) == bits_of(*b),
{
    Bits { inner: b.inner.clone() }
}

/// Relies on bitvec's `BitSlice::iter_ones`: the indices of the set bits,
/// in ascending order.
#[verifier::external_body]
pub fn bv_ones(b: &Bits) -> (r: Vec<usize>)
    ensures
        r@.len() == popcount(bits_of(*b)),
        forall|k: int|
            0 <= k < r@.len() ==> r@[k] < bits_of(*b).len() && bits_of(*b)[r@[k] as int],
        forall|k1: int, k2: int| 0 <= k1 < k2 < r@.len() ==> r@[k1] < r@[k2],
        forall|i: int| 0 <= i < bits_of(*b).len() && bits_of(*b)[i] ==> r@.contains(i as usize),
{
    b.inner.iter_ones().collect()
}

} // verus!
