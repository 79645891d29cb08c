//! Where an element lives in a vector of `w`-bit blocks: element `j` is bit
//! `j % w` of block `j / w`.

use vstd::prelude::*;
use vstd::arithmetic::div_mod::{
    lemma_div_is_ordered, lemma_div_pos_is_pos, lemma_fundamental_div_mod,
    lemma_fundamental_div_mod_converse, lemma_mod_pos_bound,
};

verus! {

/// Number of `w`-bit blocks needed to hold `n` bits.
pub open spec fn blocks_for(n: int, w: int) -> int {
    (n + w - 1) / w
}

/// Element `j` splits into block `j / w` and bit `j % w`.
pub proof fn lemma_split(j: int, w: int)
    requires
        0 <= j,
        0 < w,
    ensures
        0 <= j / w,
        0 <= j % w < w,
        j == (j / w) * w + j % w,
{
    lemma_div_pos_is_pos(j, w);
    lemma_mod_pos_bound(j, w);
    lemma_fundamental_div_mod(j, w);
    assert(w * (j / w) == (j / w) * w) by (nonlinear_arith);
}

/// Bit `o` of block `k` is element `k * w + o`.
pub proof fn lemma_join(k: int, o: int, w: int)
    requires
        0 <= k,
        0 <= o < w,
    ensures
        (k * w + o) / w == k,
        (k * w + o) % w == o,
{
    lemma_fundamental_div_mod_converse(k * w + o, w, k, o);
}

/// `blocks_for(n, w)` is the least block count `c` with `n <= c * w`.
pub proof fn lemma_blocks_for(n: int, w: int)
    requires
        0 <= n,
        0 < w,
    ensures
        0 <= blocks_for(n, w),
        n <= blocks_for(n, w) * w,
        (blocks_for(n, w) - 1) * w < n || n == 0,
        n == 0 ==> blocks_for(n, w) == 0,
{
    let c = blocks_for(n, w);
    lemma_split(n + w - 1, w);
    assert((c - 1) * w == c * w - w) by (nonlinear_arith);
    if n == 0 {
        lemma_join(0, w - 1, w);
    }
}

/// A block count with `(c - 1) * w < n <= c * w` is `blocks_for(n, w)`.
pub proof fn lemma_blocks_for_unique(n: int, w: int, c: int)
    requires
        0 < n,
        0 < w,
        0 < c,
        n <= c * w,
        (c - 1) * w < n,
    ensures
        c == blocks_for(n, w),
{
    let d = blocks_for(n, w);
    lemma_blocks_for(n, w);
    if c < d {
        assert(c * w <= (d - 1) * w) by (nonlinear_arith)
            requires
                c <= d - 1,
                0 < w,
        ;
    } else if c > d {
        assert(d * w <= (c - 1) * w) by (nonlinear_arith)
            requires
                d <= c - 1,
                0 < w,
        ;
    }
}

/// More bits never need fewer blocks.
pub proof fn lemma_blocks_for_monotone(m: int, n: int, w: int)
    requires
        0 <= m <= n,
        0 < w,
    ensures
        blocks_for(m, w) <= blocks_for(n, w),
{
    lemma_div_is_ordered(m + w - 1, n + w - 1, w);
}

/// Elements below `n` lie in the first `blocks_for(n, w)` blocks.
pub proof fn lemma_block_below(j: int, n: int, w: int)
    requires
        0 <= j < n,
        0 < w,
    ensures
        j / w < blocks_for(n, w),
{
    lemma_split(j, w);
    lemma_blocks_for(n, w);
    let c = blocks_for(n, w);
    if j / w >= c {
        assert(c * w <= (j / w) * w) by (nonlinear_arith)
            requires
                c <= j / w,
                0 < w,
        ;
    }
}

/// Elements of the blocks before block `k` are below `k * w`; those of block
/// `k` and above are not.
pub proof fn lemma_block_order(j: int, k: int, w: int)
    requires
        0 <= j,
        0 <= k,
        0 < w,
    ensures
        j / w < k ==> j < k * w,
        j / w >= k ==> j >= k * w,
{
    lemma_split(j, w);
    if j / w < k {
        assert((j / w) * w + w <= k * w) by (nonlinear_arith)
            requires
                j / w < k,
                0 < w,
        ;
    } else {
        assert(k * w <= (j / w) * w) by (nonlinear_arith)
            requires
                k <= j / w,
                0 < w,
        ;
    }
}

} // verus!
