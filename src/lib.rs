//! A growable set of small non-negative integers, stored as a packed vector of
//! fixed-width unsigned blocks.
//!
//! A `BitSet<T>` records element `j` as bit `j % w` of block `j / w`, where `w`
//! is the width of the block type `T`. Its logical length is one past its
//! largest element, and it never keeps a block beyond the one that holds that
//! element.

use vstd::prelude::*;

mod algebra;
mod block;
mod impls;
mod iter;
mod laws;
mod position;
mod storage;

pub use block::{
    block_is_clear, count_ones, is_clear, ones, ones_below, BitBlock,
};
pub use position::blocks_for;
pub use storage::saturating_bits;
pub use algebra::sym_diff;
pub use iter::{find_lowest_set_bit, Iter};
pub use laws::{
    lemma_algebra_of_lists, lemma_collect_then_list, lemma_commutative, lemma_insert_then_remove,
    lemma_listing_unique, lemma_subset_order,
};
pub use impls::{
    braced, decimal, digit_char, joined, lemma_canonical, lemma_same_bits_iff_equal, lists_ascending,
    same_bits,
};

use storage::{lemma_blocks_bytes, vec_capacity, vec_reserve_exact, vec_shrink_to_fit};
use position::{
    lemma_block_below, lemma_block_order, lemma_blocks_for, lemma_blocks_for_monotone,
    lemma_blocks_for_unique, lemma_join, lemma_split,
};

verus! {

/// Width in bits of the block type `T`.
pub open spec fn width<T: BitBlock>() -> int {
    T::nbits() as int
}

/// Whether element `j` is recorded in `blocks`: block `j / w` exists and has
/// bit `j % w` set.
pub open spec fn blocks_have<T: BitBlock>(blocks: Seq<T>, j: int) -> bool {
    &&& 0 <= j
    &&& j / width::<T>() < blocks.len()
    &&& blocks[j / width::<T>()].has_bit(j % width::<T>())
}

/// The elements recorded in `blocks`.
pub open spec fn blocks_view<T: BitBlock>(blocks: Seq<T>) -> Set<usize> {
    Set::new(|j: usize| blocks_have(blocks, j as int))
}

/// `blocks` with logical length `n` is compact: it has exactly the blocks that
/// `n` bits need, every element is below `n`, and `n - 1` is an element.
pub open spec fn blocks_wf<T: BitBlock>(blocks: Seq<T>, n: int) -> bool {
    &&& blocks.len() == blocks_for(n, width::<T>())
    &&& forall|j: int| #[trigger] blocks_have(blocks, j) ==> j < n
    &&& n > 0 ==> blocks_have(blocks, n - 1)
}

/// The logical length of a set of integers: one past its largest element, or
/// zero when it is empty.
pub open spec fn is_bit_len(s: Set<usize>, n: int) -> bool {
    &&& (n == 0) == (s == Set::<usize>::empty())
    &&& n > 0 ==> s.contains((n - 1) as usize)
    &&& forall|x: usize| s.contains(x) ==> x < n
}

/// A set of non-negative integers, stored as a vector of bits packed into
/// blocks of type `T`.
///
/// The derived `Debug` shows the representation; the text form of the set
/// itself, `{0, 7, 14, 37}`, is `to_debug_string`.
#[derive(Clone, Debug, Hash)]
pub struct BitSet<T = usize> {
    pub(crate) vec: Vec<T>,
    /// Number of bits tracked, set or not: one past the largest element.
    pub(crate) num_bits: usize,
}

impl<T: BitBlock> View for BitSet<T> {
    type V = Set<usize>;

    closed spec fn view(&self) -> Set<usize> {
        blocks_view(self.vec@)
    }
}

/// Number of `T` blocks needed to hold `num_bits` bits.
pub(crate) fn compute_num_blocks<T: BitBlock>(num_bits: usize) -> (r: usize)
    ensures
        r == blocks_for(num_bits as int, width::<T>()),
{
    let w = T::num_bits();
    proof {
        T::lemma_nbits();
        lemma_split(num_bits as int, w as int);
        lemma_blocks_for(num_bits as int, w as int);
    }
    let q = num_bits / w;
    proof {
        assert(q * 8 <= num_bits) by (nonlinear_arith)
            requires
                q * w <= num_bits,
                w >= 8,
                q >= 0,
        ;
    }
    let r = if num_bits % w == 0 {
        q
    } else {
        q + 1
    };
    proof {
        let n = num_bits as int;
        let wi = w as int;
        if n > 0 {
            if n % wi == 0 {
                assert((q - 1) * wi == q * wi - wi) by (nonlinear_arith);
                assert(q > 0) by (nonlinear_arith)
                    requires
                        q * wi == n,
                        n > 0,
                        q >= 0,
                ;
                lemma_blocks_for_unique(n, wi, q as int);
            } else {
                assert((q + 1) * wi == q * wi + wi) by (nonlinear_arith);
                lemma_blocks_for_unique(n, wi, q + 1);
            }
        }
    }
    r
}

impl<T: BitBlock> BitSet<T> {
    /// The set's representation is compact (see `blocks_wf`).
    pub closed spec fn wf(&self) -> bool {
        blocks_wf(self.vec@, self.num_bits as int)
    }

    /// Logical length: number of bits tracked, set or not.
    pub closed spec fn bit_len(&self) -> int {
        self.num_bits as int
    }

    /// The blocks that store the set.
    pub closed spec fn blocks(&self) -> Seq<T> {
        self.vec@
    }

    /// A compact representation has finitely many elements, all below its
    /// logical length, and the logical length is one past the largest.
    pub proof fn lemma_wf_view(&self)
        requires
            self.wf(),
        ensures
            self@.finite(),
            is_bit_len(self@, self.bit_len()),
    {
        let n = self.num_bits as int;
        let below = Set::new(|j: usize| (j as int) < n);
        assert(self@.subset_of(below));
        lemma_usize_range_finite(n);
        vstd::set_lib::lemma_len_subset(self@, below);
        if n > 0 {
            assert(self@.contains((n - 1) as usize));
        } else {
            assert(self@ =~= Set::<usize>::empty());
        }
    }

    /// Creates an empty set.
    pub fn new() -> (r: Self)
        ensures
            r.wf(),
            r@ == Set::<usize>::empty(),
            r.bit_len() == 0,
    {
        proof {
            T::lemma_nbits();
            lemma_blocks_for(0, width::<T>());
        }
        let r = BitSet { vec: Vec::new(), num_bits: 0 };
        assert(r@ =~= Set::<usize>::empty());
        r
    }

    /// Creates an empty set whose storage can hold `capacity` bits without
    /// reallocating.
    pub fn with_capacity(capacity: usize) -> (r: Self)
        ensures
            r.wf(),
            r@ == Set::<usize>::empty(),
            r.bit_len() == 0,
    {
        proof {
            T::lemma_nbits();
            lemma_blocks_for(0, width::<T>());
        }
        let r = BitSet { vec: Vec::with_capacity(compute_num_blocks::<T>(capacity)), num_bits: 0 };
        assert(r@ =~= Set::<usize>::empty());
        r
    }

    /// Number of elements in the set.
    pub fn len(&self) -> (r: usize)
        requires
            self.wf(),
        ensures
            self@.finite(),
            r == self@.len(),
    {
        proof {
            self.lemma_wf_view();
            T::lemma_nbits();
            lemma_count_to_bound(self.vec@, self.num_bits as int, self.vec@.len() * width::<T>());
        }
        let mut total: usize = 0;
        let mut i: usize = 0;
        while i < self.vec.len()
            invariant
                self.wf(),
                i <= self.vec@.len(),
                total == count_to(self.vec@, i * width::<T>()),
            decreases self.vec@.len() - i,
        {
            let c = count_ones(&self.vec[i]);
            proof {
                lemma_count_block(self.vec@, i as int);
                lemma_count_to_bound(self.vec@, self.num_bits as int, (i + 1) * width::<T>());
                assert((i + 1) * width::<T>() == i * width::<T>() + width::<T>()) by (nonlinear_arith);
            }
            total = total + c;
            i = i + 1;
        }
        proof {
            lemma_blocks_for(self.num_bits as int, width::<T>());
            lemma_count_to_past(self.vec@, self.num_bits as int, self.vec@.len() * width::<T>());
            lemma_count_set(self.vec@, self.num_bits as int, self.num_bits as int);
            assert(set_below(self.vec@, self.num_bits as int) =~= self@);
        }
        total
    }
}

impl<T: BitBlock> BitSet<T> {
    /// Number of bits the storage can hold without reallocating, saturating at
    /// `usize::MAX`; never less than the logical length.
    pub fn capacity(&self) -> (r: usize)
        requires
            self.wf(),
        ensures
            r >= self.bit_len(),
            r == usize::MAX || (r as int) % width::<T>() == 0,
    {
        let blocks = vec_capacity(&self.vec);
        proof {
            T::lemma_nbits();
            lemma_blocks_for(self.num_bits as int, width::<T>());
            assert(self.vec@.len() * width::<T>() <= blocks * width::<T>()) by (nonlinear_arith)
                requires
                    self.vec@.len() <= blocks,
                    0 < width::<T>(),
            ;
        }
        proof {
            vstd::arithmetic::div_mod::lemma_mod_multiples_basic(blocks as int, width::<T>());
        }
        saturating_bits::<T>(blocks)
    }

    /// Reserves storage for at least `additional` more bits than the logical
    /// length.
    pub fn reserve(&mut self, additional: usize)
        requires
            old(self).wf(),
            old(self).bit_len() + additional <= usize::MAX,
        ensures
            final(self).wf(),
            final(self)@ == old(self)@,
            final(self).blocks() == old(self).blocks(),
            final(self).bit_len() == old(self).bit_len(),
    {
        let cap = self.num_bits + additional;
        if cap > self.capacity() {
            let vec_len = self.vec.len();
            proof {
                T::lemma_nbits();
                lemma_blocks_for_monotone(self.num_bits as int, cap as int, width::<T>());
            }
            self.vec.reserve(compute_num_blocks::<T>(cap) - vec_len);
        }
    }

    /// Reserves storage for `additional` more bits than the logical length,
    /// without deliberately over-allocating.
    pub fn reserve_exact(&mut self, additional: usize)
        requires
            old(self).wf(),
            old(self).bit_len() + additional <= usize::MAX,
        ensures
            final(self).wf(),
            final(self)@ == old(self)@,
            final(self).blocks() == old(self).blocks(),
            final(self).bit_len() == old(self).bit_len(),
    {
        let cap = self.num_bits + additional;
        if cap > self.capacity() {
            let vec_len = self.vec.len();
            let nblks = compute_num_blocks::<T>(cap);
            proof {
                T::lemma_nbits();
                lemma_blocks_for_monotone(self.num_bits as int, cap as int, width::<T>());
                lemma_blocks_bytes::<T>(cap as int);
            }
            vec_reserve_exact(&mut self.vec, nblks - vec_len);
        }
    }

    /// Releases storage that the set does not use.
    pub fn shrink_to_fit(&mut self)
        requires
            old(self).wf(),
        ensures
            final(self).wf(),
            final(self)@ == old(self)@,
            final(self).blocks() == old(self).blocks(),
            final(self).bit_len() == old(self).bit_len(),
    {
        vec_shrink_to_fit(&mut self.vec);
    }

    /// Logical length: one past the largest element, or zero when the set is
    /// empty.
    pub fn num_bits(&self) -> (r: usize)
        requires
            self.wf(),
        ensures
            r == self.bit_len(),
            is_bit_len(self@, r as int),
    {
        proof {
            self.lemma_wf_view();
        }
        self.num_bits
    }

    /// Whether the set has no element.
    pub fn is_empty(&self) -> (r: bool)
        requires
            self.wf(),
        ensures
            r == (self@ == Set::<usize>::empty()),
    {
        proof {
            self.lemma_wf_view();
        }
        self.num_bits == 0
    }

    /// Removes every element.
    pub fn clear(&mut self)
        requires
            old(self).wf(),
        ensures
            final(self).wf(),
            final(self)@ == Set::<usize>::empty(),
            final(self).bit_len() == 0,
    {
        self.vec.clear();
        self.num_bits = 0;
        proof {
            T::lemma_nbits();
            lemma_blocks_for(0, width::<T>());
            assert(self@ =~= Set::<usize>::empty());
        }
    }

    /// Whether `value` is in the set.
    pub fn contains(&self, value: usize) -> (r: bool)
        requires
            self.wf(),
        ensures
            r == self@.contains(value),
    {
        if value >= self.num_bits {
            return false;
        }
        proof {
            T::lemma_nbits();
            lemma_block_below(value as int, self.num_bits as int, width::<T>());
        }
        self.contains_unchecked(value)
    }

    /// Tests the bit of `value`, which lies in one of the set's blocks.
    fn contains_unchecked(&self, value: usize) -> (r: bool)
        requires
            (value as int) / width::<T>() < self.vec@.len(),
        ensures
            r == blocks_have(self.vec@, value as int),
    {
        let w = T::num_bits();
        proof {
            T::lemma_nbits();
            lemma_split(value as int, w as int);
        }
        self.vec[value / w].bit(value % w)
    }

    /// Adds `value` to the set, growing the storage as needed. Returns whether
    /// `value` was newly added.
    pub fn insert(&mut self, value: usize) -> (r: bool)
        requires
            old(self).wf(),
            value < usize::MAX,
        ensures
            final(self).wf(),
            final(self)@ == old(self)@.insert(value),
            r == !old(self)@.contains(value),
    {
        let w = T::num_bits();
        let nblks = compute_num_blocks::<T>(value + 1);
        let ghost old_vec = self.vec@;
        let ghost old_len = self.vec@.len();
        proof {
            T::lemma_nbits();
            lemma_split(value as int, w as int);
            lemma_block_below(value as int, value + 1, w as int);
        }
        while self.vec.len() < nblks
            invariant
                old_vec == old(self).vec@,
                old_len == old_vec.len(),
                self.num_bits == old(self).num_bits,
                old_len <= self.vec@.len(),
                self.vec@.len() <= old_len || self.vec@.len() <= nblks,
                forall|k: int| 0 <= k < old_len ==> self.vec@[k] == old_vec[k],
                forall|k: int| old_len <= k < self.vec@.len() ==> is_clear(#[trigger] self.vec@[k]),
            decreases nblks - self.vec@.len(),
        {
            self.vec.push(T::zero());
        }
        proof {
            assert forall|j: int| blocks_have(self.vec@, j) == blocks_have(old_vec, j) by {
                if 0 <= j && j / width::<T>() < self.vec@.len() && old_len <= j / width::<T>() {
                    assert(is_clear(self.vec@[j / width::<T>()]));
                }
            }
        }
        let ghost old_nb = self.num_bits as int;
        if self.num_bits < value + 1 {
            self.num_bits = value + 1;
        }
        let present = self.contains_unchecked(value);
        let i = value / w;
        let o = value % w;
        let mut b = self.vec[i];
        b.set_bit(o);
        self.vec[i] = b;
        proof {
            assert forall|j: int| #[trigger] blocks_have(self.vec@, j) == (blocks_have(old_vec, j) || j == value) by {
                if 0 <= j {
                    lemma_split(j, w as int);
                    if j / width::<T>() == i as int {
                        if j % width::<T>() == o as int {
                            assert(j == value);
                        }
                    }
                }
            }
            assert(old_len == blocks_for(old_nb, width::<T>()));
            assert(nblks == blocks_for(value + 1, width::<T>()));
            assert(self.vec@.len() == blocks_for(self.num_bits as int, width::<T>())) by {
                if old_nb < value + 1 {
                    lemma_blocks_for_monotone(old_nb, value + 1, width::<T>());
                } else {
                    lemma_blocks_for_monotone(value + 1, old_nb, width::<T>());
                }
            }
            assert(blocks_have(self.vec@, self.num_bits - 1));
            assert(self@ =~= old(self)@.insert(value));
        }
        !present
    }

    /// Removes `value` from the set. Returns whether it was present.
    pub fn remove(&mut self, value: usize) -> (r: bool)
        requires
            old(self).wf(),
        ensures
            final(self).wf(),
            final(self)@ == old(self)@.remove(value),
            r == old(self)@.contains(value),
            !old(self)@.contains(value) ==> final(self).blocks() == old(self).blocks()
                && final(self).bit_len() == old(self).bit_len(),
    {
        if value >= self.num_bits {
            proof {
                assert(self@ =~= old(self)@.remove(value));
            }
            return false;
        }
        let w = T::num_bits();
        proof {
            T::lemma_nbits();
            lemma_block_below(value as int, self.num_bits as int, width::<T>());
            lemma_split(value as int, w as int);
        }
        let present = self.contains_unchecked(value);
        let i = value / w;
        let o = value % w;
        let mut b = self.vec[i];
        b.reset_bit(o);
        let ghost old_vec = self.vec@;
        self.vec[i] = b;
        proof {
            assert forall|j: int| #[trigger] blocks_have(self.vec@, j) == (blocks_have(old_vec, j) && j != value) by {
                if 0 <= j {
                    lemma_split(j, w as int);
                    if j / width::<T>() == i as int {
                        if j % width::<T>() == o as int {
                            assert(j == value);
                        }
                    }
                }
            }
            assert(self@ =~= old(self)@.remove(value));
        }
        if present && value + 1 == self.num_bits {
            self.compact();
        }
        proof {
            if !present {
                assert(self@ =~= old(self)@);
                lemma_canonical(old(self), self);
            }
        }
        present
    }

    /// Drops the trailing blocks that hold no element and sets the logical
    /// length to one past the largest element.
    pub(crate) fn compact(&mut self)
        requires
            forall|j: int| #[trigger] blocks_have(old(self).vec@, j) ==> j < old(self).num_bits,
        ensures
            final(self).wf(),
            final(self)@ == old(self)@,
            final(self).vec@ == old(self).vec@.subrange(0, final(self).vec@.len() as int),
    {
        let w = T::num_bits();
        proof {
            T::lemma_nbits();
        }
        let ghost old_vec = self.vec@;
        let mut i = self.vec.len();
        while i > 0
            invariant
                w == width::<T>(),
                old_vec == old(self).vec@,
                forall|j: int| #[trigger] blocks_have(old_vec, j) ==> j < old(self).num_bits,
                i <= old_vec.len(),
                self.vec@ == old_vec,
                self.num_bits == old(self).num_bits,
                forall|k: int| i <= k < old_vec.len() ==> is_clear(#[trigger] old_vec[k]),
            decreases i,
        {
            let z = self.vec[i - 1].highest_zeros();
            if z < w {
                let ghost k = i - 1;
                let ghost h = k * w + (w - 1 - z);
                proof {
                    lemma_join(k, w - 1 - z, w as int);
                    assert(blocks_have(old(self).vec@, h));
                    assert(h < old(self).num_bits);
                    assert(k * w <= h) by (nonlinear_arith)
                        requires
                            h == k * w + (w - 1 - z),
                            z < w,
                    ;
                }
                self.vec.truncate(i);
                self.num_bits = (i - 1) * w + (w - z);
                proof {
                    assert forall|j: int| #[trigger] blocks_have(self.vec@, j) == blocks_have(old_vec, j) by {
                        if 0 <= j {
                            lemma_split(j, w as int);
                            if j / width::<T>() >= i && j / width::<T>() < old_vec.len() {
                                assert(is_clear(old_vec[j / width::<T>()]));
                            }
                        }
                    }
                    assert forall|j: int| #[trigger] blocks_have(self.vec@, j) implies j < self.num_bits by {
                        lemma_split(j, w as int);
                        if j / width::<T>() < k {
                            lemma_block_order(j, k, w as int);
                        } else {
                            assert(old_vec[k].has_bit(j % width::<T>()));
                        }
                    }
                    assert((k + 1) * w == k * w + w) by (nonlinear_arith);
                    lemma_blocks_for_unique(h + 1, w as int, i as int);
                    assert(self@ =~= old(self)@);
                    assert(self.vec@ =~= old(self).vec@.subrange(0, i as int));
                }
                return;
            }
            proof {
                assert forall|o: int| !#[trigger] old_vec[i - 1].has_bit(o) by {
                    T::lemma_has_bit_range(old_vec[i - 1], o);
                }
            }
            i = i - 1;
        }
        self.vec.clear();
        self.num_bits = 0;
        proof {
            lemma_blocks_for(0, w as int);
            assert forall|j: int| !blocks_have(old_vec, j) by {
                if 0 <= j && j / width::<T>() < old_vec.len() {
                    assert(is_clear(old_vec[j / width::<T>()]));
                }
            }
            assert(self@ =~= old(self)@);
        }
    }
}

impl<T: BitBlock> BitSet<T> {
    /// Whether every element of `self` is in `other`.
    pub fn is_subset(&self, other: &Self) -> (r: bool)
        requires
            self.wf(),
            other.wf(),
        ensures
            r == self@.subset_of(other@),
    {
        if self.num_bits > other.num_bits {
            proof {
                assert(self@.contains((self.num_bits - 1) as usize));
            }
            return false;
        }
        let nblks = compute_num_blocks::<T>(self.num_bits);
        proof {
            T::lemma_nbits();
            lemma_blocks_for_monotone(self.num_bits as int, other.num_bits as int, width::<T>());
        }
        let mut i: usize = 0;
        while i < nblks
            invariant
                self.wf(),
                other.wf(),
                nblks == self.vec@.len(),
                nblks <= other.vec@.len(),
                i <= nblks,
                forall|k: int, o: int|
                    0 <= k < i && #[trigger] self.vec@[k].has_bit(o) ==> other.vec@[k].has_bit(o),
            decreases nblks - i,
        {
            let extra = self.vec[i].and_not(other.vec[i]);
            if !block_is_clear(&extra) {
                proof {
                    let o = lemma_bit_witness(extra);
                    lemma_element_at(self.vec@, i as int, o);
                    lemma_element_at(other.vec@, i as int, o);
                    let j = i * width::<T>() + o;
                    assert(j < self.num_bits);
                    assert(self@.contains(j as usize));
                }
                return false;
            }
            proof {
                assert forall|o: int| self.vec@[i as int].has_bit(o) implies other.vec@[i as int].has_bit(o) by {
                    assert(!extra.has_bit(o));
                }
            }
            i = i + 1;
        }
        proof {
            assert forall|x: usize| self@.contains(x) implies other@.contains(x) by {
                lemma_split(x as int, width::<T>());
            }
        }
        true
    }

    /// Whether every element of `self` is in `other` and `other` has more.
    pub fn is_proper_subset(&self, other: &Self) -> (r: bool)
        requires
            self.wf(),
            other.wf(),
        ensures
            r == (self@.subset_of(other@) && self@ != other@),
    {
        if self.num_bits > other.num_bits {
            proof {
                assert(self@.contains((self.num_bits - 1) as usize));
            }
            return false;
        }
        let nblks1 = compute_num_blocks::<T>(self.num_bits);
        let nblks2 = compute_num_blocks::<T>(other.num_bits);
        proof {
            T::lemma_nbits();
            lemma_blocks_for_monotone(self.num_bits as int, other.num_bits as int, width::<T>());
        }
        let mut equal = nblks1 == nblks2;
        let mut i: usize = 0;
        while i < nblks1
            invariant
                self.wf(),
                other.wf(),
                nblks1 == self.vec@.len(),
                nblks2 == other.vec@.len(),
                nblks1 <= nblks2,
                i <= nblks1,
                forall|k: int, o: int|
                    0 <= k < i && #[trigger] self.vec@[k].has_bit(o) ==> other.vec@[k].has_bit(o),
                equal ==> nblks1 == nblks2,
                equal ==> forall|k: int, o: int|
                    0 <= k < i ==> #[trigger] other.vec@[k].has_bit(o) == self.vec@[k].has_bit(o),
                !equal ==> (nblks1 != nblks2 || exists|j: int|
                    blocks_have(other.vec@, j) && !blocks_have(self.vec@, j) && j < other.num_bits),
            decreases nblks1 - i,
        {
            let extra = self.vec[i].and_not(other.vec[i]);
            if !block_is_clear(&extra) {
                proof {
                    let o = lemma_bit_witness(extra);
                    lemma_element_at(self.vec@, i as int, o);
                    lemma_element_at(other.vec@, i as int, o);
                    let j = i * width::<T>() + o;
                    assert(j < self.num_bits);
                    assert(self@.contains(j as usize));
                }
                return false;
            }
            let missing = other.vec[i].and_not(self.vec[i]);
            if !block_is_clear(&missing) {
                proof {
                    let o = lemma_bit_witness(missing);
                    lemma_element_at(self.vec@, i as int, o);
                    lemma_element_at(other.vec@, i as int, o);
                    let j = i * width::<T>() + o;
                    assert(blocks_have(other.vec@, j) && !blocks_have(self.vec@, j) && j < other.num_bits);
                }
                equal = false;
            }
            proof {
                assert forall|o: int| self.vec@[i as int].has_bit(o) implies other.vec@[i as int].has_bit(o) by {
                    assert(!extra.has_bit(o));
                }
                if equal {
                    assert forall|o: int| other.vec@[i as int].has_bit(o) == self.vec@[i as int].has_bit(o) by {
                        assert(!extra.has_bit(o));
                        assert(!missing.has_bit(o));
                    }
                }
            }
            i = i + 1;
        }
        proof {
            assert forall|x: usize| self@.contains(x) implies other@.contains(x) by {
                lemma_split(x as int, width::<T>());
            }
            if equal {
                assert forall|x: usize| other@.contains(x) implies self@.contains(x) by {
                    lemma_split(x as int, width::<T>());
                }
                assert(self@ =~= other@);
            } else if nblks1 != nblks2 {
                self.lemma_wf_view();
                other.lemma_wf_view();
                if self@ == other@ {
                    lemma_bit_len_unique(self@, self.num_bits as int, other.num_bits as int);
                }
            } else {
                let j = choose|j: int|
                    blocks_have(other.vec@, j) && !blocks_have(self.vec@, j) && j < other.num_bits;
                assert(other@.contains(j as usize));
            }
        }
        !equal
    }
}

/// A set has one logical length.
pub proof fn lemma_bit_len_unique(s: Set<usize>, n1: int, n2: int)
    requires
        0 <= n1 <= usize::MAX,
        0 <= n2 <= usize::MAX,
        is_bit_len(s, n1),
        is_bit_len(s, n2),
    ensures
        n1 == n2,
{
    if n1 < n2 {
        assert(s.contains((n2 - 1) as usize));
    } else if n2 < n1 {
        assert(s.contains((n1 - 1) as usize));
    }
}

/// Bit `o` of block `k` is element `k * w + o`.
proof fn lemma_element_at<T: BitBlock>(blocks: Seq<T>, k: int, o: int)
    requires
        0 <= k < blocks.len(),
        0 <= o < width::<T>(),
    ensures
        blocks_have(blocks, k * width::<T>() + o) == blocks[k].has_bit(o),
        0 <= k * width::<T>() + o,
{
    lemma_join(k, o, width::<T>());
    assert(0 <= k * width::<T>()) by (nonlinear_arith)
        requires
            0 <= k,
            0 < width::<T>(),
    ;
}

/// A block that is not clear has a set bit within its width.
proof fn lemma_bit_witness<T: BitBlock>(b: T) -> (o: int)
    requires
        !is_clear(b),
    ensures
        0 <= o < width::<T>(),
        b.has_bit(o),
{
    let o = choose|o: int| b.has_bit(o);
    T::lemma_has_bit_range(b, o);
    o
}

/// The elements of `blocks` below `p`.
pub open spec fn set_below<T: BitBlock>(blocks: Seq<T>, p: int) -> Set<usize> {
    Set::new(|j: usize| (j as int) < p && blocks_have(blocks, j as int))
}

/// Number of elements of `blocks` below `p`.
pub open spec fn count_to<T: BitBlock>(blocks: Seq<T>, p: int) -> nat
    decreases p,
{
    if p <= 0 {
        0
    } else {
        count_to(blocks, p - 1) + if blocks_have(blocks, p - 1) {
            1nat
        } else {
            0nat
        }
    }
}

proof fn lemma_usize_range_finite(n: int)
    requires
        0 <= n <= usize::MAX + 1,
    ensures
        Set::new(|j: usize| (j as int) < n).finite(),
    decreases n,
{
    if n == 0 {
        assert(Set::new(|j: usize| (j as int) < n) =~= Set::<usize>::empty());
    } else {
        lemma_usize_range_finite(n - 1);
        assert(Set::new(|j: usize| (j as int) < n) =~= Set::new(|j: usize| (j as int) < n - 1).insert(
            (n - 1) as usize,
        ));
    }
}

/// Counting up to `p` counts the elements below `p`.
proof fn lemma_count_set<T: BitBlock>(blocks: Seq<T>, n: int, p: int)
    requires
        0 <= p <= n <= usize::MAX,
    ensures
        set_below(blocks, p).finite(),
        set_below(blocks, p).len() == count_to(blocks, p),
    decreases p,
{
    if p == 0 {
        assert(set_below(blocks, p) =~= Set::<usize>::empty());
    } else {
        lemma_count_set(blocks, n, p - 1);
        if blocks_have(blocks, p - 1) {
            assert(set_below(blocks, p) =~= set_below(blocks, p - 1).insert((p - 1) as usize));
        } else {
            assert(set_below(blocks, p) =~= set_below(blocks, p - 1));
        }
    }
}

/// No element is counted twice and none lies at or above `n`, so the count
/// never exceeds `n`.
proof fn lemma_count_to_bound<T: BitBlock>(blocks: Seq<T>, n: int, p: int)
    requires
        0 <= n,
        forall|j: int| #[trigger] blocks_have(blocks, j) ==> j < n,
    ensures
        count_to(blocks, p) <= n,
        0 <= p <= n ==> count_to(blocks, p) <= p,
    decreases p,
{
    if p > 0 {
        lemma_count_to_bound(blocks, n, p - 1);
    }
}

/// Counting past `n` adds nothing when no element reaches `n`.
proof fn lemma_count_to_past<T: BitBlock>(blocks: Seq<T>, n: int, p: int)
    requires
        0 <= n <= p,
        forall|j: int| #[trigger] blocks_have(blocks, j) ==> j < n,
    ensures
        count_to(blocks, p) == count_to(blocks, n),
    decreases p,
{
    if p > n {
        lemma_count_to_past(blocks, n, p - 1);
    }
}

/// Counting through block `k` adds the set bits of block `k`.
proof fn lemma_count_block<T: BitBlock>(blocks: Seq<T>, k: int)
    requires
        0 <= k < blocks.len(),
    ensures
        count_to(blocks, (k + 1) * width::<T>()) == count_to(blocks, k * width::<T>()) + ones(
            blocks[k],
        ),
{
    T::lemma_nbits();
    lemma_count_within(blocks, k, width::<T>());
    assert((k + 1) * width::<T>() == k * width::<T>() + width::<T>()) by (nonlinear_arith);
}

proof fn lemma_count_within<T: BitBlock>(blocks: Seq<T>, k: int, o: int)
    requires
        0 <= k < blocks.len(),
        0 <= o <= width::<T>(),
    ensures
        count_to(blocks, k * width::<T>() + o) == count_to(blocks, k * width::<T>()) + ones_below(
            blocks[k],
            o,
        ),
    decreases o,
{
    T::lemma_nbits();
    if o > 0 {
        lemma_count_within(blocks, k, o - 1);
        assert(0 <= k * width::<T>()) by (nonlinear_arith)
            requires
                0 <= k,
                0 < width::<T>(),
        ;
        lemma_join(k, o - 1, width::<T>());
    }
}

} // verus!
