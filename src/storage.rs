//! Storage capacity: what the vector of blocks can hold, and the calls into
//! `Vec` that size it.

use vstd::prelude::*;
use vstd::layout::size_of;

use crate::block::BitBlock;
use crate::blocks_for;
use crate::position::lemma_blocks_for;
use crate::width;

verus! {

/// Bits held by `blocks` blocks of `T`, saturating at `usize::MAX`.
pub fn saturating_bits<T: BitBlock>(blocks: usize) -> (r: usize)
    ensures
        r == if blocks * width::<T>() <= usize::MAX {
            blocks * width::<T>()
        } else {
            usize::MAX as int
        },
{
    blocks.checked_mul(T::num_bits()).unwrap_or(usize::MAX)
}

/// A vector of `blocks_for(n, w)` blocks, for any bit count `n` that fits in
/// `usize`, takes at most `isize::MAX` bytes.
pub(crate) proof fn lemma_blocks_bytes<T: BitBlock>(n: int)
    requires
        0 <= n <= usize::MAX,
    ensures
        blocks_for(n, width::<T>()) * size_of::<T>() <= isize::MAX,
{
    T::lemma_nbits();
    T::lemma_size_of();
    let w = width::<T>();
    let c = blocks_for(n, w);
    lemma_blocks_for(n, w);
    assert(c * w < n + w) by (nonlinear_arith)
        requires
            (c - 1) * w < n || n == 0,
            n == 0 ==> c == 0,
            0 < w,
    ;
    assert(c * size_of::<T>() * 8 == c * w) by (nonlinear_arith)
        requires
            size_of::<T>() * 8 == w,
    ;
}

/// Relies on `Vec::capacity`: the number of elements the vector can hold
/// without reallocating, never less than its length.
#[verifier::external_body]
pub(crate) fn vec_capacity<T>(v: &Vec<T>) -> (r: usize)
    ensures
        r >= v@.len(),
{
    v.capacity()
}

/// Relies on `Vec::reserve_exact`: it may reallocate but keeps the elements.
/// It panics when the new capacity overflows `usize` or exceeds `isize::MAX`
/// bytes, which `requires` rules out.
#[verifier::external_body]
pub(crate) fn vec_reserve_exact<T>(v: &mut Vec<T>, additional: usize)
    requires
        old(v)@.len() + additional <= usize::MAX,
        (old(v)@.len() + additional) * size_of::<T>() <= isize::MAX,
    ensures
        final(v)@ == old(v)@,
{
    v.reserve_exact(additional)
}

/// Relies on `Vec::shrink_to_fit`: it may reallocate but keeps the elements.
#[verifier::external_body]
pub(crate) fn vec_shrink_to_fit<T>(v: &mut Vec<T>)
    ensures
        final(v)@ == old(v)@,
{
    v.shrink_to_fit()
}

} // verus!
