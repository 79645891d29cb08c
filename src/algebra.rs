//! Union, intersection, difference and symmetric difference, computed block by
//! block over the blocks that both operands have.

use vstd::prelude::*;

use crate::block::BitBlock;
use crate::position::{lemma_blocks_for, lemma_blocks_for_monotone, lemma_split};
use crate::{blocks_have, compute_num_blocks, width, BitSet};

verus! {

/// Elements in exactly one of `a` and `b`.
pub open spec fn sym_diff(a: Set<usize>, b: Set<usize>) -> Set<usize> {
    a.difference(b).union(b.difference(a))
}

/// ORs the first `n` blocks of `src` into those of `dst`.
fn or_into<T: BitBlock>(dst: &mut Vec<T>, src: &[T], n: usize)
    requires
        n <= old(dst)@.len(),
        n <= src@.len(),
    ensures
        final(dst)@.len() == old(dst)@.len(),
        forall|k: int, o: int|
            0 <= k < n ==> #[trigger] final(dst)@[k].has_bit(o) == (old(dst)@[k].has_bit(o)
                || src@[k].has_bit(o)),
        forall|k: int| n <= k < old(dst)@.len() ==> #[trigger] final(dst)@[k] == old(dst)@[k],
{
    let mut i: usize = 0;
    while i < n
        invariant
            n <= old(dst)@.len(),
            n <= src@.len(),
            i <= n,
            dst@.len() == old(dst)@.len(),
            forall|k: int, o: int|
                0 <= k < i ==> #[trigger] dst@[k].has_bit(o) == (old(dst)@[k].has_bit(o)
                    || src@[k].has_bit(o)),
            forall|k: int| i <= k < old(dst)@.len() ==> #[trigger] dst@[k] == old(dst)@[k],
        decreases n - i,
    {
        let b = dst[i].or(src[i]);
        dst[i] = b;
        i = i + 1;
    }
}

/// ANDs the first `n` blocks of `src` into those of `dst`.
fn and_into<T: BitBlock>(dst: &mut Vec<T>, src: &[T], n: usize)
    requires
        n <= old(dst)@.len(),
        n <= src@.len(),
    ensures
        final(dst)@.len() == old(dst)@.len(),
        forall|k: int, o: int|
            0 <= k < n ==> #[trigger] final(dst)@[k].has_bit(o) == (old(dst)@[k].has_bit(o)
                && src@[k].has_bit(o)),
        forall|k: int| n <= k < old(dst)@.len() ==> #[trigger] final(dst)@[k] == old(dst)@[k],
{
    let mut i: usize = 0;
    while i < n
        invariant
            n <= old(dst)@.len(),
            n <= src@.len(),
            i <= n,
            dst@.len() == old(dst)@.len(),
            forall|k: int, o: int|
                0 <= k < i ==> #[trigger] dst@[k].has_bit(o) == (old(dst)@[k].has_bit(o)
                    && src@[k].has_bit(o)),
            forall|k: int| i <= k < old(dst)@.len() ==> #[trigger] dst@[k] == old(dst)@[k],
        decreases n - i,
    {
        let b = dst[i].and(src[i]);
        dst[i] = b;
        i = i + 1;
    }
}

/// XORs the first `n` blocks of `src` into those of `dst`.
fn xor_into<T: BitBlock>(dst: &mut Vec<T>, src: &[T], n: usize)
    requires
        n <= old(dst)@.len(),
        n <= src@.len(),
    ensures
        final(dst)@.len() == old(dst)@.len(),
        forall|k: int, o: int|
            0 <= k < n ==> #[trigger] final(dst)@[k].has_bit(o) == (old(dst)@[k].has_bit(o)
                != src@[k].has_bit(o)),
        forall|k: int| n <= k < old(dst)@.len() ==> #[trigger] final(dst)@[k] == old(dst)@[k],
{
    let mut i: usize = 0;
    while i < n
        invariant
            n <= old(dst)@.len(),
            n <= src@.len(),
            i <= n,
            dst@.len() == old(dst)@.len(),
            forall|k: int, o: int|
                0 <= k < i ==> #[trigger] dst@[k].has_bit(o) == (old(dst)@[k].has_bit(o)
                    != src@[k].has_bit(o)),
            forall|k: int| i <= k < old(dst)@.len() ==> #[trigger] dst@[k] == old(dst)@[k],
        decreases n - i,
    {
        let b = dst[i].xor(src[i]);
        dst[i] = b;
        i = i + 1;
    }
}

/// Clears in the first `n` blocks of `dst` the bits set in `src`.
fn and_not_into<T: BitBlock>(dst: &mut Vec<T>, src: &[T], n: usize)
    requires
        n <= old(dst)@.len(),
        n <= src@.len(),
    ensures
        final(dst)@.len() == old(dst)@.len(),
        forall|k: int, o: int|
            0 <= k < n ==> #[trigger] final(dst)@[k].has_bit(o) == (old(dst)@[k].has_bit(o)
                && !src@[k].has_bit(o)),
        forall|k: int| n <= k < old(dst)@.len() ==> #[trigger] final(dst)@[k] == old(dst)@[k],
{
    let mut i: usize = 0;
    while i < n
        invariant
            n <= old(dst)@.len(),
            n <= src@.len(),
            i <= n,
            dst@.len() == old(dst)@.len(),
            forall|k: int, o: int|
                0 <= k < i ==> #[trigger] dst@[k].has_bit(o) == (old(dst)@[k].has_bit(o)
                    && !src@[k].has_bit(o)),
            forall|k: int| i <= k < old(dst)@.len() ==> #[trigger] dst@[k] == old(dst)@[k],
        decreases n - i,
    {
        let b = dst[i].and_not(src[i]);
        dst[i] = b;
        i = i + 1;
    }
}

/// `new` combines the first `n` blocks of `a` and `b` bit by bit with `f`, and
/// keeps the other blocks of `a`. Where `b` has no block, `f` keeps the bit of
/// `a`; where `a` has none, `f` gives nothing. Then `new` holds the elements that
/// `f` gives from membership in `a` and in `b`.
proof fn lemma_blockwise<T: BitBlock>(
    new: Seq<T>,
    a: Seq<T>,
    b: Seq<T>,
    n: int,
    f: spec_fn(bool, bool) -> bool,
)
    requires
        new.len() == a.len(),
        n == if a.len() <= b.len() {
            a.len() as int
        } else {
            b.len() as int
        },
        forall|k: int, o: int|
            0 <= k < n ==> #[trigger] new[k].has_bit(o) == f(a[k].has_bit(o), b[k].has_bit(o)),
        forall|k: int| n <= k < a.len() ==> #[trigger] new[k] == a[k],
        n < a.len() ==> forall|x: bool| #[trigger] f(x, false) == x,
        !f(false, false),
        b.len() > a.len() ==> forall|y: bool| !#[trigger] f(false, y),
    ensures
        forall|j: int| #[trigger] blocks_have(new, j) == f(blocks_have(a, j), blocks_have(b, j)),
{
    T::lemma_nbits();
    assert forall|j: int| #[trigger] blocks_have(new, j) == f(blocks_have(a, j), blocks_have(b, j)) by {
        if 0 <= j {
            lemma_split(j, width::<T>());
            let k = j / width::<T>();
            let o = j % width::<T>();
            if k < n {
                assert(new[k].has_bit(o) == f(a[k].has_bit(o), b[k].has_bit(o)));
            } else if k < a.len() {
                assert(new[k] == a[k]);
                assert(f(a[k].has_bit(o), false) == a[k].has_bit(o));
            } else if k < b.len() {
                assert(!f(false, b[k].has_bit(o)));
            }
        }
    }
}

impl<T: BitBlock> BitSet<T> {
    /// A set with the same blocks and logical length.
    fn copy(&self) -> (r: Self)
        ensures
            r.vec@ == self.vec@,
            r.num_bits == self.num_bits,
    {
        let v = self.vec.clone();
        proof {
            assert forall|k: int| 0 <= k < v@.len() implies v@[k] == self.vec@[k] by {
                T::lemma_cloned(self.vec@[k], v@[k]);
            }
            assert(v@ =~= self.vec@);
        }
        BitSet { vec: v, num_bits: self.num_bits }
    }

    /// Number of blocks both `self` and `other` have: the blocks of the
    /// shorter one.
    fn common_blocks(&self, other: &Self) -> (r: usize)
        requires
            self.wf(),
            other.wf(),
        ensures
            r == if self.vec@.len() <= other.vec@.len() {
                self.vec@.len()
            } else {
                other.vec@.len()
            },
            self.num_bits <= other.num_bits ==> self.vec@.len() <= other.vec@.len(),
            other.num_bits <= self.num_bits ==> other.vec@.len() <= self.vec@.len(),
    {
        proof {
            T::lemma_nbits();
            if self.num_bits <= other.num_bits {
                lemma_blocks_for_monotone(self.num_bits as int, other.num_bits as int, width::<T>());
            }
            if other.num_bits <= self.num_bits {
                lemma_blocks_for_monotone(other.num_bits as int, self.num_bits as int, width::<T>());
            }
        }
        if self.num_bits <= other.num_bits {
            compute_num_blocks::<T>(self.num_bits)
        } else {
            compute_num_blocks::<T>(other.num_bits)
        }
    }

    /// ORs a set with no larger logical length into `self`.
    fn union_longer(&mut self, shorter: &Self)
        requires
            old(self).wf(),
            shorter.wf(),
            shorter.num_bits <= old(self).num_bits,
        ensures
            final(self).wf(),
            final(self)@ == old(self)@.union(shorter@),
    {
        let n = self.common_blocks(shorter);
        or_into(&mut self.vec, &shorter.vec, n);
        proof {
            lemma_blockwise(self.vec@, old(self).vec@, shorter.vec@, n as int, |x: bool, y: bool| x || y);
            assert(self@ =~= old(self)@.union(shorter@));
        }
    }

    /// The elements in `self` or in `other`.
    pub fn union(&self, other: &Self) -> (r: Self)
        requires
            self.wf(),
            other.wf(),
        ensures
            r.wf(),
            r@ == self@.union(other@),
    {
        if self.num_bits < other.num_bits {
            let mut r = other.copy();
            r.union_longer(self);
            assert(r@ =~= self@.union(other@));
            r
        } else {
            let mut r = self.copy();
            r.union_longer(other);
            r
        }
    }

    /// Adds to `self` the elements of `other`.
    pub fn union_with(&mut self, other: &Self)
        requires
            old(self).wf(),
            other.wf(),
        ensures
            final(self).wf(),
            final(self)@ == old(self)@.union(other@),
    {
        if self.num_bits < other.num_bits {
            let mut r = other.copy();
            r.union_longer(self);
            proof {
                assert(r@ =~= old(self)@.union(other@));
            }
            *self = r;
        } else {
            self.union_longer(other);
        }
    }

    /// ANDs a set with no smaller logical length into `self`.
    fn intersect_shorter(&mut self, longer: &Self)
        requires
            old(self).wf(),
            longer.wf(),
            old(self).num_bits <= longer.num_bits,
        ensures
            final(self).wf(),
            final(self)@ == old(self)@.intersect(longer@),
    {
        let n = self.common_blocks(longer);
        and_into(&mut self.vec, &longer.vec, n);
        proof {
            lemma_blockwise(self.vec@, old(self).vec@, longer.vec@, n as int, |x: bool, y: bool| x && y);
        }
        self.compact();
        proof {
            assert(self@ =~= old(self)@.intersect(longer@));
        }
    }

    /// The elements in both `self` and `other`.
    pub fn intersection(&self, other: &Self) -> (r: Self)
        requires
            self.wf(),
            other.wf(),
        ensures
            r.wf(),
            r@ == self@.intersect(other@),
    {
        if self.num_bits > other.num_bits {
            let mut r = other.copy();
            r.intersect_shorter(self);
            assert(r@ =~= self@.intersect(other@));
            r
        } else {
            let mut r = self.copy();
            r.intersect_shorter(other);
            r
        }
    }

    /// Keeps in `self` only the elements also in `other`.
    pub fn intersect_with(&mut self, other: &Self)
        requires
            old(self).wf(),
            other.wf(),
        ensures
            final(self).wf(),
            final(self)@ == old(self)@.intersect(other@),
    {
        if self.num_bits > other.num_bits {
            let mut r = other.copy();
            r.intersect_shorter(self);
            proof {
                assert(r@ =~= old(self)@.intersect(other@));
            }
            *self = r;
        } else {
            self.intersect_shorter(other);
        }
    }

    /// The elements in `self` and not in `other`.
    pub fn difference(&self, other: &Self) -> (r: Self)
        requires
            self.wf(),
            other.wf(),
        ensures
            r.wf(),
            r@ == self@.difference(other@),
    {
        let mut r = self.copy();
        r.difference_with(other);
        r
    }

    /// Removes from `self` the elements of `other`.
    pub fn difference_with(&mut self, other: &Self)
        requires
            old(self).wf(),
            other.wf(),
        ensures
            final(self).wf(),
            final(self)@ == old(self)@.difference(other@),
    {
        let n = self.common_blocks(other);
        and_not_into(&mut self.vec, &other.vec, n);
        proof {
            lemma_blockwise(self.vec@, old(self).vec@, other.vec@, n as int, |x: bool, y: bool| x && !y);
        }
        self.compact();
        proof {
            assert(self@ =~= old(self)@.difference(other@));
        }
    }

    /// XORs a set with no larger logical length into `self`.
    fn symmetric_difference_longer(&mut self, shorter: &Self)
        requires
            old(self).wf(),
            shorter.wf(),
            shorter.num_bits <= old(self).num_bits,
        ensures
            final(self).wf(),
            final(self)@ == sym_diff(old(self)@, shorter@),
    {
        let n = self.common_blocks(shorter);
        xor_into(&mut self.vec, &shorter.vec, n);
        proof {
            lemma_blockwise(self.vec@, old(self).vec@, shorter.vec@, n as int, |x: bool, y: bool| x != y);
        }
        self.compact();
        proof {
            assert(self@ =~= sym_diff(old(self)@, shorter@));
        }
    }

    /// The elements in exactly one of `self` and `other`.
    pub fn symmetric_difference(&self, other: &Self) -> (r: Self)
        requires
            self.wf(),
            other.wf(),
        ensures
            r.wf(),
            r@ == sym_diff(self@, other@),
    {
        if self.num_bits < other.num_bits {
            let mut r = other.copy();
            r.symmetric_difference_longer(self);
            assert(r@ =~= sym_diff(self@, other@));
            r
        } else {
            let mut r = self.copy();
            r.symmetric_difference_longer(other);
            r
        }
    }

    /// Replaces `self` by the elements in exactly one of `self` and `other`.
    pub fn symmetric_difference_with(&mut self, other: &Self)
        requires
            old(self).wf(),
            other.wf(),
        ensures
            final(self).wf(),
            final(self)@ == sym_diff(old(self)@, other@),
    {
        if self.num_bits < other.num_bits {
            let mut r = other.copy();
            r.symmetric_difference_longer(self);
            proof {
                assert(r@ =~= sym_diff(old(self)@, other@));
            }
            *self = r;
        } else {
            self.symmetric_difference_longer(other);
        }
    }
}

} // verus!
