//! Trusted boundary around the `bitvec` crate: the fixed-width bit-vectors
//! backing the bit-packed board representation.
//!
//! `BitWords` holds a `bitvec::boxed::BitBox`, which is opaque to the
//! verifier; `bits_of` names its contents as a sequence of booleans, and
//! each wrapper below states — over that name — what the `bitvec`
//! operation it calls does, as the crate's source shows it.

use vstd::prelude::*;

verus! {

/// A fixed-width vector of bits, backed by `bitvec`.
#[verifier::external_body]
pub struct BitWords {
    bits: bitvec::boxed::BitBox,
}

/// The contents of a bit-vector, indexed exactly as `bitvec` indexes bits.
pub uninterp spec fn bits_of(b: BitWords) -> Seq<bool>;

/// Relies on `BitVec::repeat` and `BitVec::into_boxed_bitslice`: a
/// bit-vector of `len` bits, all zero.
#[verifier::external_body]
pub(crate) fn bits_repeat(len: usize) -> (r: BitWords)
    ensures
        bits_of(r).len() == len,
        forall|i: int| 0 <= i < len ==> !bits_of(r)[i],
{
    BitWords { bits: bitvec::vec::BitVec::repeat(false, len).into_boxed_bitslice() }
}

/// Relies on `BitSlice`'s `Index<usize>` implementation: reads one bit.
#[verifier::external_body]
pub(crate) fn bits_get(b: &BitWords, i: usize) -> (r: bool)
    requires
        i < bits_of(*b).len(),
    ensures
        r == bits_of(*b)[i as int],
{
    b.bits[i]
}

/// Relies on `BitSlice::set`: writes one bit in place.
#[verifier::external_body]
pub(crate) fn bits_set(b: &mut BitWords, i: usize, v: bool)
    requires
        i < bits_of(*old(b)).len(),
    ensures
        bits_of(*final(b)) == bits_of(*old(b)).update(i as int, v),
{
    b.bits.set(i, v);
}

/// Relies on `BitSlice::shift_start`: moves every bit `n` places towards
/// index zero and zero-fills the vacated tail, on a copy of the input.
#[verifier::external_body]
pub(crate) fn bits_shift_down(b: &BitWords, n: usize) -> (r: BitWords)
    requires
        n <= bits_of(*b).len(),
    ensures
        bits_of(r).len() == bits_of(*b).len(),
        forall|i: int|
            0 <= i < bits_of(r).len() ==> bits_of(r)[i] == (if i + n < bits_of(*b).len() {
                bits_of(*b)[i + n]
            } else {
                false
            }),
{
    let mut c = b.bits.clone();
    c.shift_start(n);
    BitWords { bits: c }
}

/// Relies on `BitAndAssign` for equal-length bit-slices: the bitwise AND,
/// taken pointwise.
#[verifier::external_body]
pub(crate) fn bits_and(a: &BitWords, b: &BitWords) -> (r: BitWords)
    requires
        bits_of(*a).len() == bits_of(*b).len(),
    ensures
        bits_of(r).len() == bits_of(*a).len(),
        forall|i: int|
            0 <= i < bits_of(r).len() ==> bits_of(r)[i] == (bits_of(*a)[i] && bits_of(*b)[i]),
{
    let mut c = a.bits.clone();
    *c.as_mut_bitslice() &= b.bits.as_bitslice();
    BitWords { bits: c }
}

/// Relies on `BitXorAssign` for equal-length bit-slices: the bitwise XOR,
/// taken pointwise.
#[verifier::external_body]
pub(crate) fn bits_xor(a: &BitWords, b: &BitWords) -> (r: BitWords)
    requires
        bits_of(*a).len() == bits_of(*b).len(),
    ensures
        bits_of(r).len() == bits_of(*a).len(),
        forall|i: int|
            0 <= i < bits_of(r).len() ==> bits_of(r)[i] == (bits_of(*a)[i] != bits_of(*b)[i]),
{
    let mut c = a.bits.clone();
    *c.as_mut_bitslice() ^= b.bits.as_bitslice();
    BitWords { bits: c }
}

/// Relies on `BitSlice::any`: whether some bit is set.
#[verifier::external_body]
pub(crate) fn bits_any(b: &BitWords) -> (r: bool)
    ensures
        r == (exists|i: int| 0 <= i < bits_of(*b).len() && bits_of(*b)[i]),
{
    b.bits.any()
}

} // verus!
