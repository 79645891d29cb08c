//! Ascending iteration over the elements of a `BitSet`.

use vstd::prelude::*;

use crate::block::BitBlock;
use crate::position::{lemma_blocks_for, lemma_join, lemma_split};
use crate::{blocks_have, blocks_view, blocks_wf, width, BitSet};

verus! {

/// A walk over the elements of a `BitSet` in ascending order.
///
/// Created by `BitSet::iter`; each call of `next` yields the least element at
/// or above the current position.
pub struct Iter<'a, T> {
    slice: &'a [T],
    num_bits: usize,
    index: usize,
    bit: usize,
}

impl<'a, T: BitBlock> Iter<'a, T> {
    /// The walked blocks are compact and the position fits in `usize`.
    pub closed spec fn wf(&self) -> bool {
        &&& blocks_wf(self.slice@, self.num_bits as int)
        &&& self.bit <= width::<T>()
        &&& self.pos() <= usize::MAX
    }

    /// The elements walked over.
    pub closed spec fn members(&self) -> Set<usize> {
        blocks_view(self.slice@)
    }

    /// The position: every element below it has been yielded or skipped.
    pub closed spec fn pos(&self) -> int {
        self.index * width::<T>() + self.bit
    }

    /// A walk over the elements of `set` from the start.
    pub fn new(set: &'a BitSet<T>) -> (r: Self)
        requires
            set.wf(),
        ensures
            r.wf(),
            r.members() == set@,
            r.pos() == 0,
    {
        proof {
            T::lemma_nbits();
        }
        Iter { slice: set.vec.as_slice(), num_bits: set.num_bits, index: 0, bit: 0 }
    }

    /// A walk over the elements of `set` that are at least `start`.
    pub fn new_from(set: &'a BitSet<T>, start: usize) -> (r: Self)
        requires
            set.wf(),
        ensures
            r.wf(),
            r.members() == set@,
            r.pos() == start,
    {
        let w = T::num_bits();
        proof {
            T::lemma_nbits();
            lemma_split(start as int, w as int);
        }
        let (index, bit) = (start / w, start % w);
        Iter { slice: set.vec.as_slice(), num_bits: set.num_bits, index, bit }
    }

    /// The least element at or above the position, which then moves past it;
    /// `None` when there is none.
    pub fn next(&mut self) -> (r: Option<usize>)
        requires
            old(self).wf(),
        ensures
            final(self).wf(),
            final(self).members() == old(self).members(),
            old(self).pos() <= final(self).pos(),
            match r {
                Some(x) => {
                    &&& old(self).pos() <= x
                    &&& old(self).members().contains(x)
                    &&& forall|y: usize|
                        old(self).pos() <= y < x ==> !#[trigger] old(self).members().contains(y)
                    &&& final(self).pos() == x + 1
                },
                None => forall|y: usize|
                    old(self).pos() <= y ==> !#[trigger] old(self).members().contains(y),
            },
    {
        let w = T::num_bits();
        proof {
            T::lemma_nbits();
        }
        while self.index * w + self.bit < self.num_bits
            invariant
                w == width::<T>(),
                self.wf(),
                self.slice == old(self).slice,
                self.num_bits == old(self).num_bits,
                old(self).pos() <= self.pos(),
                forall|y: usize|
                    old(self).pos() <= y < self.pos() ==> !#[trigger] self.members().contains(y),
            decreases self.slice@.len() - self.index,
        {
            let ghost p = self.pos();
            proof {
                lemma_in_block(self.slice@, self.num_bits as int, self.index as int, self.bit as int);
            }
            match find_lowest_set_bit(self.slice[self.index], self.bit) {
                Some(bit) => {
                    proof {
                        lemma_join(self.index as int, bit as int, w as int);
                        assert(0 <= self.index * w) by (nonlinear_arith)
                            requires
                                0 <= self.index,
                                0 < w,
                        ;
                        assert(blocks_have(self.slice@, self.index * w + bit));
                        assert(self.index * w + bit < self.num_bits);
                    }
                    let x = self.index * w + bit;
                    proof {
                        assert(self.members().contains(x));
                        assert forall|y: usize| old(self).pos() <= y < x implies !#[trigger] self.members().contains(y) by {
                            if y >= p {
                                lemma_join(self.index as int, y - self.index * w, w as int);
                            }
                        }
                    }
                    self.bit = bit + 1;
                    return Some(x);
                },
                None => {
                    proof {
                        lemma_last_block_has_top(self.slice@, self.num_bits as int);
                        assert(self.index + 1 < self.slice@.len()) by {
                            if self.index + 1 == self.slice@.len() {
                                let top = self.num_bits - 1;
                                lemma_split(top, w as int);
                                assert(self.slice@[self.index as int].has_bit(top % (w as int)));
                            }
                        }
                        assert((self.index + 1) * w == self.index * w + w) by (nonlinear_arith);
                        assert((self.index + 1) * w <= (self.slice@.len() - 1) * w) by (nonlinear_arith)
                            requires
                                self.index + 1 <= self.slice@.len() - 1,
                                w > 0,
                        ;
                        assert forall|y: usize| old(self).pos() <= y < (self.index + 1) * w implies !#[trigger] old(self).members().contains(y) by {
                            assert(self.members() == old(self).members());
                            if y >= p {
                                lemma_join(self.index as int, y - self.index * w, w as int);
                                assert(!self.slice@[self.index as int].has_bit(y - self.index * w));
                            } else {
                                assert(!self.members().contains(y));
                            }
                        }
                    }
                    let ghost end = (self.index + 1) * w;
                    self.index = self.index + 1;
                    self.bit = 0;
                    proof {
                        assert(self.pos() == end);
                        assert forall|y: usize| old(self).pos() <= y < self.pos() implies !#[trigger] self.members().contains(y) by {
                            assert(!old(self).members().contains(y));
                        }
                    }
                },
            }
        }
        proof {
            assert forall|y: usize| old(self).pos() <= y implies !#[trigger] old(self).members().contains(y) by {
                assert(self.members() == old(self).members());
                if y >= self.pos() {
                    assert(!blocks_have(self.slice@, y as int));
                }
            }
        }
        None
    }
}

impl<T: BitBlock> BitSet<T> {
    /// Walks over the elements in ascending order.
    pub fn iter(&self) -> (r: Iter<'_, T>)
        requires
            self.wf(),
        ensures
            r.wf(),
            r.members() == self@,
            r.pos() == 0,
    {
        Iter::new(self)
    }
}

/// The position `k * w + o`, below the logical length, lies in block `k`.
proof fn lemma_in_block<T: BitBlock>(blocks: Seq<T>, n: int, k: int, o: int)
    requires
        blocks_wf(blocks, n),
        0 <= k,
        0 <= o <= width::<T>(),
        k * width::<T>() + o < n,
    ensures
        k < blocks.len(),
{
    T::lemma_nbits();
    lemma_blocks_for(n, width::<T>());
    if k >= blocks.len() {
        assert(blocks.len() * width::<T>() <= k * width::<T>()) by (nonlinear_arith)
            requires
                blocks.len() <= k,
                0 < width::<T>(),
        ;
    }
}

/// The last block of a compact, non-empty vector holds the element one below
/// the logical length.
proof fn lemma_last_block_has_top<T: BitBlock>(blocks: Seq<T>, n: int)
    requires
        blocks_wf(blocks, n),
        n > 0,
    ensures
        (n - 1) / width::<T>() == blocks.len() - 1,
        (blocks.len() - 1) * width::<T>() < n,
{
    T::lemma_nbits();
    let w = width::<T>();
    lemma_blocks_for(n, w);
    lemma_split(n - 1, w);
    let k = (n - 1) / w;
    if k < blocks.len() - 1 {
        assert((k + 1) * w <= (blocks.len() - 1) * w) by (nonlinear_arith)
            requires
                k + 1 <= blocks.len() - 1,
                0 < w,
        ;
        assert((k + 1) * w == k * w + w) by (nonlinear_arith);
    }
}

/// The lowest set bit of `blk` at or above `from`, if any.
pub fn find_lowest_set_bit<T: BitBlock>(blk: T, from: usize) -> (r: Option<usize>)
    ensures
        match r {
            Some(i) => {
                &&& from <= i < width::<T>()
                &&& blk.has_bit(i as int)
                &&& forall|k: int| from <= k < i ==> !#[trigger] blk.has_bit(k)
            },
            None => forall|k: int| from <= k ==> !#[trigger] blk.has_bit(k),
        },
{
    let n = T::num_bits();
    if from >= n {
        proof {
            assert forall|k: int| from <= k implies !#[trigger] blk.has_bit(k) by {
                T::lemma_has_bit_range(blk, k);
            }
        }
        return None;
    }
    blk.lowest_set_bit_from(from)
}

} // verus!
