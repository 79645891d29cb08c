//! Fixed-width unsigned integers used as the blocks of a bit vector.

use vstd::prelude::*;
use vstd::layout::{layout_of_primitives, size_of};
use vstd::std_specs::bits::{
    axiom_u16_leading_zeros, axiom_u16_trailing_zeros, axiom_u32_leading_zeros,
    axiom_u32_trailing_zeros, axiom_u64_leading_zeros, axiom_u64_trailing_zeros,
    axiom_u8_leading_zeros, axiom_u8_trailing_zeros,
};

verus! {

/// An unsigned integer type that stores `nbits()` consecutive membership flags.
///
/// Bit `i` of a block stands for the element `i` places above the first element
/// that the block covers; bit 0 is the least significant bit.
pub trait BitBlock: Copy + Sized {
    /// Width of the block in bits.
    spec fn nbits() -> nat;

    /// Whether bit `i` of the block is set; false outside `0 .. nbits()`.
    spec fn has_bit(self, i: int) -> bool;

    /// Blocks are between 8 and 128 bits wide.
    proof fn lemma_nbits()
        ensures
            8 <= Self::nbits() <= 128,
    ;

    /// Only bits within the width can be set.
    proof fn lemma_has_bit_range(b: Self, i: int)
        ensures
            b.has_bit(i) ==> 0 <= i < Self::nbits(),
    ;

    /// A block is determined by its bits.
    proof fn lemma_bits_determine(a: Self, b: Self)
        requires
            forall|i: int| a.has_bit(i) == b.has_bit(i),
        ensures
            a == b,
    ;

    /// A clone of a block is the block itself.
    proof fn lemma_cloned(a: Self, b: Self)
        requires
            cloned(a, b),
        ensures
            a == b,
    ;

    /// A block takes `nbits() / 8` bytes.
    proof fn lemma_size_of()
        ensures
            size_of::<Self>() * 8 == Self::nbits(),
    ;

    /// The width of the block in bits.
    fn num_bits() -> (r: usize)
        ensures
            r == Self::nbits(),
    ;

    /// The block with no bit set.
    fn zero() -> (r: Self)
        ensures
            forall|i: int| !r.has_bit(i),
    ;

    /// Tests bit `idx`.
    fn bit(&self, idx: usize) -> (r: bool)
        requires
            idx < Self::nbits(),
        ensures
            r == self.has_bit(idx as int),
    ;

    /// Sets bit `idx`.
    fn set_bit(&mut self, idx: usize)
        requires
            idx < Self::nbits(),
        ensures
            forall|i: int| #[trigger] final(self).has_bit(i) == (i == idx || old(self).has_bit(i)),
    ;

    /// Clears bit `idx`.
    fn reset_bit(&mut self, idx: usize)
        requires
            idx < Self::nbits(),
        ensures
            forall|i: int| #[trigger] final(self).has_bit(i) == (i != idx && old(self).has_bit(i)),
    ;

    /// Bitwise OR.
    fn or(self, rhs: Self) -> (r: Self)
        ensures
            forall|i: int| #[trigger] r.has_bit(i) == (self.has_bit(i) || rhs.has_bit(i)),
    ;

    /// Bitwise AND.
    fn and(self, rhs: Self) -> (r: Self)
        ensures
            forall|i: int| #[trigger] r.has_bit(i) == (self.has_bit(i) && rhs.has_bit(i)),
    ;

    /// Bitwise XOR.
    fn xor(self, rhs: Self) -> (r: Self)
        ensures
            forall|i: int| #[trigger] r.has_bit(i) == (self.has_bit(i) != rhs.has_bit(i)),
    ;

    /// The bits of `self` that are not set in `rhs`.
    fn and_not(self, rhs: Self) -> (r: Self)
        ensures
            forall|i: int| #[trigger] r.has_bit(i) == (self.has_bit(i) && !rhs.has_bit(i)),
    ;

    /// Number of unset bits above the highest set bit: `nbits()` when no bit
    /// is set.
    fn highest_zeros(&self) -> (r: usize)
        ensures
            r <= Self::nbits(),
            forall|i: int| Self::nbits() - r <= i ==> !#[trigger] self.has_bit(i),
            r < Self::nbits() ==> self.has_bit(Self::nbits() - 1 - r),
    ;

    /// The lowest set bit at or above `from`, if any.
    fn lowest_set_bit_from(&self, from: usize) -> (r: Option<usize>)
        requires
            from < Self::nbits(),
        ensures
            match r {
                Some(i) => {
                    &&& from <= i < Self::nbits()
                    &&& self.has_bit(i as int)
                    &&& forall|k: int| from <= k < i ==> !#[trigger] self.has_bit(k)
                },
                None => forall|k: int| from <= k ==> !#[trigger] self.has_bit(k),
            },
    ;
}

/// Number of set bits among bits `0 .. k` of `b`.
pub open spec fn ones_below<T: BitBlock>(b: T, k: int) -> nat
    decreases k,
{
    if k <= 0 {
        0
    } else {
        ones_below(b, k - 1) + if b.has_bit(k - 1) {
            1nat
        } else {
            0nat
        }
    }
}

/// Number of set bits of `b`.
pub open spec fn ones<T: BitBlock>(b: T) -> nat {
    ones_below(b, T::nbits() as int)
}

/// Whether no bit of `b` is set.
pub open spec fn is_clear<T: BitBlock>(b: T) -> bool {
    forall|i: int| !#[trigger] b.has_bit(i)
}

/// Counts the set bits of a block.
pub fn count_ones<T: BitBlock>(b: &T) -> (r: usize)
    ensures
        r == ones(*b),
{
    let n = T::num_bits();
    let mut c: usize = 0;
    let mut i: usize = 0;
    while i < n
        invariant
            n == T::nbits(),
            i <= n,
            c == ones_below(*b, i as int),
            c <= i,
        decreases n - i,
    {
        if b.bit(i) {
            c = c + 1;
        }
        i = i + 1;
    }
    c
}

/// Whether no bit of a block is set.
pub fn block_is_clear<T: BitBlock>(b: &T) -> (r: bool)
    ensures
        r == is_clear(*b),
{
    let z = b.highest_zeros();
    proof {
        if z < T::nbits() {
            assert(b.has_bit(T::nbits() - 1 - z));
        } else {
            assert forall|i: int| !#[trigger] b.has_bit(i) by {
                T::lemma_has_bit_range(*b, i);
            }
        }
    }
    z == T::num_bits()
}

pub open spec fn u8_bit(b: u8, i: u8) -> bool {
    (b >> i) & 1u8 == 1u8
}

proof fn lemma_u8_bits(a: u8, b: u8, i: u8, j: u8)
    by (bit_vector)
    requires
        i < 8,
        j < 8,
    ensures
        u8_bit(a | b, i) == (u8_bit(a, i) || u8_bit(b, i)),
        u8_bit(a & b, i) == (u8_bit(a, i) && u8_bit(b, i)),
        u8_bit(a ^ b, i) == (u8_bit(a, i) != u8_bit(b, i)),
        u8_bit(a & !b, i) == (u8_bit(a, i) && !u8_bit(b, i)),
        u8_bit(a | (1u8 << j), i) == (i == j || u8_bit(a, i)),
        u8_bit(a & !(1u8 << j), i) == (i != j && u8_bit(a, i)),
        !u8_bit(0u8, i),
        ((a >> i) & 1u8 != 0u8) == u8_bit(a, i),
        u8_bit(a & !(((1u8 << j) - 1u8) as u8), i) == (i >= j && u8_bit(a, i)),
        (1u8 << j) >= 1u8,
{
}

proof fn lemma_u8_shift(a: u8, b: u8, i: u8)
    by (bit_vector)
    requires
        i < 7,
    ensures
        u8_bit(a >> 1u8, i) == u8_bit(a, (i + 1) as u8),
        !u8_bit(a >> 1u8, 7 as u8),
        a != 0u8 ==> a >> 1u8 < a,
        (a >> 1u8 == 0u8 && !u8_bit(a, 0u8)) ==> a == 0u8,
        a ^ b == 0u8 ==> a == b,
{
}

/// A block with no bit set is zero.
proof fn lemma_u8_clear_is_zero(x: u8)
    requires
        forall|i: int| !x.has_bit(i),
    ensures
        x == 0,
    decreases x,
{
    if x != 0 {
        lemma_u8_shift(x, 0, 0);
        let y = x >> 1u8;
        assert forall|i: int| !y.has_bit(i) by {
            if 0 <= i < 7 {
                lemma_u8_shift(x, 0, i as u8);
                assert(!x.has_bit(i + 1));
            }
        }
        lemma_u8_clear_is_zero(y);
        assert(!x.has_bit(0));
    }
}

impl BitBlock for u8 {
    open spec fn nbits() -> nat {
        8
    }

    open spec fn has_bit(self, i: int) -> bool {
        0 <= i < 8 && u8_bit(self, i as u8)
    }

    proof fn lemma_nbits() {
    }

    proof fn lemma_has_bit_range(b: Self, i: int) {
    }

    proof fn lemma_bits_determine(a: Self, b: Self) {
        assert forall|i: int| !(a ^ b).has_bit(i) by {
            if 0 <= i < 8 {
                lemma_u8_bits(a, b, i as u8, 0);
                assert(a.has_bit(i) == b.has_bit(i));
            }
        }
        lemma_u8_clear_is_zero(a ^ b);
        lemma_u8_shift(a, b, 0);
    }

    proof fn lemma_cloned(a: Self, b: Self) {
    }

    proof fn lemma_size_of() {
        broadcast use layout_of_primitives;
    }

    fn num_bits() -> (r: usize) {
        8
    }

    fn zero() -> (r: Self) {
        proof {
            assert forall|i: int| !(0u8).has_bit(i) by {
                if 0 <= i < 8 {
                    lemma_u8_bits(0, 0, i as u8, 0);
                }
            }
        }
        0
    }

    fn bit(&self, idx: usize) -> (r: bool) {
        (*self >> idx as u8) & 1 == 1
    }

    fn set_bit(&mut self, idx: usize) {
        let ghost a = *self;
        *self = *self | (1u8 << idx as u8);
        proof {
            assert forall|i: int| #[trigger] self.has_bit(i) == (i == idx || a.has_bit(i)) by {
                if 0 <= i < 8 {
                    lemma_u8_bits(a, 0, i as u8, idx as u8);
                }
            }
        }
    }

    fn reset_bit(&mut self, idx: usize) {
        let ghost a = *self;
        *self = *self & !(1u8 << idx as u8);
        proof {
            assert forall|i: int| #[trigger] self.has_bit(i) == (i != idx && a.has_bit(i)) by {
                if 0 <= i < 8 {
                    lemma_u8_bits(a, 0, i as u8, idx as u8);
                }
            }
        }
    }

    fn or(self, rhs: Self) -> (r: Self) {
        proof {
            assert forall|i: int| #[trigger] (self | rhs).has_bit(i) == (self.has_bit(i) || rhs.has_bit(i)) by {
                if 0 <= i < 8 {
                    lemma_u8_bits(self, rhs, i as u8, 0);
                }
            }
        }
        self | rhs
    }

    fn and(self, rhs: Self) -> (r: Self) {
        proof {
            assert forall|i: int| #[trigger] (self & rhs).has_bit(i) == (self.has_bit(i) && rhs.has_bit(i)) by {
                if 0 <= i < 8 {
                    lemma_u8_bits(self, rhs, i as u8, 0);
                }
            }
        }
        self & rhs
    }

    fn xor(self, rhs: Self) -> (r: Self) {
        proof {
            assert forall|i: int| #[trigger] (self ^ rhs).has_bit(i) == (self.has_bit(i) != rhs.has_bit(i)) by {
                if 0 <= i < 8 {
                    lemma_u8_bits(self, rhs, i as u8, 0);
                }
            }
        }
        self ^ rhs
    }

    fn and_not(self, rhs: Self) -> (r: Self) {
        proof {
            assert forall|i: int| #[trigger] (self & !rhs).has_bit(i) == (self.has_bit(i) && !rhs.has_bit(i)) by {
                if 0 <= i < 8 {
                    lemma_u8_bits(self, rhs, i as u8, 0);
                }
            }
        }
        self & !rhs
    }
    fn highest_zeros(&self) -> (r: usize) {
        let z = self.leading_zeros();
        proof {
            axiom_u8_leading_zeros(*self);
            assert forall|i: int| 8 - z <= i implies !#[trigger] self.has_bit(i) by {
                if 0 <= i < 8 {
                    lemma_u8_bits(*self, 0, i as u8, 0);
                    assert((*self >> (i as u8)) & 1u8 == 0u8);
                }
            }
            if z < 8 {
                lemma_u8_bits(*self, 0, (8 - 1 - z) as u8, 0);
            }
        }
        z as usize
    }

    fn lowest_set_bit_from(&self, from: usize) -> (r: Option<usize>) {
        proof {
            lemma_u8_bits(*self, 0, 0, from as u8);
        }
        let masked = *self & !((1u8 << from as u8) - 1);
        let t = masked.trailing_zeros();
        proof {
            axiom_u8_trailing_zeros(masked);
            assert forall|k: int| 0 <= k < 8 implies #[trigger] masked.has_bit(k) == (from <= k && self.has_bit(k)) by {
                lemma_u8_bits(*self, 0, k as u8, from as u8);
            }
            assert forall|k: int| from <= k < t implies !#[trigger] self.has_bit(k) by {
                if k < 8 {
                    assert((masked >> (k as u8)) & 1u8 == 0u8);
                    assert(!masked.has_bit(k));
                }
            }
        }
        if t == 8 {
            proof {
                assert forall|k: int| from <= k implies !#[trigger] self.has_bit(k) by {
                    if k < 8 {
                        assert((masked >> (k as u8)) & 1u8 == 0u8);
                        assert(!masked.has_bit(k));
                    }
                }
            }
            None
        } else {
            proof {
                assert(masked.has_bit(t as int));
            }
            Some(t as usize)
        }
    }
}

pub open spec fn u16_bit(b: u16, i: u16) -> bool {
    (b >> i) & 1u16 == 1u16
}

proof fn lemma_u16_bits(a: u16, b: u16, i: u16, j: u16)
    by (bit_vector)
    requires
        i < 16,
        j < 16,
    ensures
        u16_bit(a | b, i) == (u16_bit(a, i) || u16_bit(b, i)),
        u16_bit(a & b, i) == (u16_bit(a, i) && u16_bit(b, i)),
        u16_bit(a ^ b, i) == (u16_bit(a, i) != u16_bit(b, i)),
        u16_bit(a & !b, i) == (u16_bit(a, i) && !u16_bit(b, i)),
        u16_bit(a | (1u16 << j), i) == (i == j || u16_bit(a, i)),
        u16_bit(a & !(1u16 << j), i) == (i != j && u16_bit(a, i)),
        !u16_bit(0u16, i),
        ((a >> i) & 1u16 != 0u16) == u16_bit(a, i),
        u16_bit(a & !(((1u16 << j) - 1u16) as u16), i) == (i >= j && u16_bit(a, i)),
        (1u16 << j) >= 1u16,
{
}

proof fn lemma_u16_shift(a: u16, b: u16, i: u16)
    by (bit_vector)
    requires
        i < 15,
    ensures
        u16_bit(a >> 1u16, i) == u16_bit(a, (i + 1) as u16),
        !u16_bit(a >> 1u16, 15 as u16),
        a != 0u16 ==> a >> 1u16 < a,
        (a >> 1u16 == 0u16 && !u16_bit(a, 0u16)) ==> a == 0u16,
        a ^ b == 0u16 ==> a == b,
{
}

/// A block with no bit set is zero.
proof fn lemma_u16_clear_is_zero(x: u16)
    requires
        forall|i: int| !x.has_bit(i),
    ensures
        x == 0,
    decreases x,
{
    if x != 0 {
        lemma_u16_shift(x, 0, 0);
        let y = x >> 1u16;
        assert forall|i: int| !y.has_bit(i) by {
            if 0 <= i < 15 {
                lemma_u16_shift(x, 0, i as u16);
                assert(!x.has_bit(i + 1));
            }
        }
        lemma_u16_clear_is_zero(y);
        assert(!x.has_bit(0));
    }
}

impl BitBlock for u16 {
    open spec fn nbits() -> nat {
        16
    }

    open spec fn has_bit(self, i: int) -> bool {
        0 <= i < 16 && u16_bit(self, i as u16)
    }

    proof fn lemma_nbits() {
    }

    proof fn lemma_has_bit_range(b: Self, i: int) {
    }

    proof fn lemma_bits_determine(a: Self, b: Self) {
        assert forall|i: int| !(a ^ b).has_bit(i) by {
            if 0 <= i < 16 {
                lemma_u16_bits(a, b, i as u16, 0);
                assert(a.has_bit(i) == b.has_bit(i));
            }
        }
        lemma_u16_clear_is_zero(a ^ b);
        lemma_u16_shift(a, b, 0);
    }

    proof fn lemma_cloned(a: Self, b: Self) {
    }

    proof fn lemma_size_of() {
        broadcast use layout_of_primitives;
    }

    fn num_bits() -> (r: usize) {
        16
    }

    fn zero() -> (r: Self) {
        proof {
            assert forall|i: int| !(0u16).has_bit(i) by {
                if 0 <= i < 16 {
                    lemma_u16_bits(0, 0, i as u16, 0);
                }
            }
        }
        0
    }

    fn bit(&self, idx: usize) -> (r: bool) {
        (*self >> idx as u16) & 1 == 1
    }

    fn set_bit(&mut self, idx: usize) {
        let ghost a = *self;
        *self = *self | (1u16 << idx as u16);
        proof {
            assert forall|i: int| #[trigger] self.has_bit(i) == (i == idx || a.has_bit(i)) by {
                if 0 <= i < 16 {
                    lemma_u16_bits(a, 0, i as u16, idx as u16);
                }
            }
        }
    }

    fn reset_bit(&mut self, idx: usize) {
        let ghost a = *self;
        *self = *self & !(1u16 << idx as u16);
        proof {
            assert forall|i: int| #[trigger] self.has_bit(i) == (i != idx && a.has_bit(i)) by {
                if 0 <= i < 16 {
                    lemma_u16_bits(a, 0, i as u16, idx as u16);
                }
            }
        }
    }

    fn or(self, rhs: Self) -> (r: Self) {
        proof {
            assert forall|i: int| #[trigger] (self | rhs).has_bit(i) == (self.has_bit(i) || rhs.has_bit(i)) by {
                if 0 <= i < 16 {
                    lemma_u16_bits(self, rhs, i as u16, 0);
                }
            }
        }
        self | rhs
    }

    fn and(self, rhs: Self) -> (r: Self) {
        proof {
            assert forall|i: int| #[trigger] (self & rhs).has_bit(i) == (self.has_bit(i) && rhs.has_bit(i)) by {
                if 0 <= i < 16 {
                    lemma_u16_bits(self, rhs, i as u16, 0);
                }
            }
        }
        self & rhs
    }

    fn xor(self, rhs: Self) -> (r: Self) {
        proof {
            assert forall|i: int| #[trigger] (self ^ rhs).has_bit(i) == (self.has_bit(i) != rhs.has_bit(i)) by {
                if 0 <= i < 16 {
                    lemma_u16_bits(self, rhs, i as u16, 0);
                }
            }
        }
        self ^ rhs
    }

    fn and_not(self, rhs: Self) -> (r: Self) {
        proof {
            assert forall|i: int| #[trigger] (self & !rhs).has_bit(i) == (self.has_bit(i) && !rhs.has_bit(i)) by {
                if 0 <= i < 16 {
                    lemma_u16_bits(self, rhs, i as u16, 0);
                }
            }
        }
        self & !rhs
    }
    fn highest_zeros(&self) -> (r: usize) {
        let z = self.leading_zeros();
        proof {
            axiom_u16_leading_zeros(*self);
            assert forall|i: int| 16 - z <= i implies !#[trigger] self.has_bit(i) by {
                if 0 <= i < 16 {
                    lemma_u16_bits(*self, 0, i as u16, 0);
                    assert((*self >> (i as u16)) & 1u16 == 0u16);
                }
            }
            if z < 16 {
                lemma_u16_bits(*self, 0, (16 - 1 - z) as u16, 0);
            }
        }
        z as usize
    }

    fn lowest_set_bit_from(&self, from: usize) -> (r: Option<usize>) {
        proof {
            lemma_u16_bits(*self, 0, 0, from as u16);
        }
        let masked = *self & !((1u16 << from as u16) - 1);
        let t = masked.trailing_zeros();
        proof {
            axiom_u16_trailing_zeros(masked);
            assert forall|k: int| 0 <= k < 16 implies #[trigger] masked.has_bit(k) == (from <= k && self.has_bit(k)) by {
                lemma_u16_bits(*self, 0, k as u16, from as u16);
            }
            assert forall|k: int| from <= k < t implies !#[trigger] self.has_bit(k) by {
                if k < 16 {
                    assert((masked >> (k as u16)) & 1u16 == 0u16);
                    assert(!masked.has_bit(k));
                }
            }
        }
        if t == 16 {
            proof {
                assert forall|k: int| from <= k implies !#[trigger] self.has_bit(k) by {
                    if k < 16 {
                        assert((masked >> (k as u16)) & 1u16 == 0u16);
                        assert(!masked.has_bit(k));
                    }
                }
            }
            None
        } else {
            proof {
                assert(masked.has_bit(t as int));
            }
            Some(t as usize)
        }
    }
}

pub open spec fn u32_bit(b: u32, i: u32) -> bool {
    (b >> i) & 1u32 == 1u32
}

proof fn lemma_u32_bits(a: u32, b: u32, i: u32, j: u32)
    by (bit_vector)
    requires
        i < 32,
        j < 32,
    ensures
        u32_bit(a | b, i) == (u32_bit(a, i) || u32_bit(b, i)),
        u32_bit(a & b, i) == (u32_bit(a, i) && u32_bit(b, i)),
        u32_bit(a ^ b, i) == (u32_bit(a, i) != u32_bit(b, i)),
        u32_bit(a & !b, i) == (u32_bit(a, i) && !u32_bit(b, i)),
        u32_bit(a | (1u32 << j), i) == (i == j || u32_bit(a, i)),
        u32_bit(a & !(1u32 << j), i) == (i != j && u32_bit(a, i)),
        !u32_bit(0u32, i),
        ((a >> i) & 1u32 != 0u32) == u32_bit(a, i),
        u32_bit(a & !(((1u32 << j) - 1u32) as u32), i) == (i >= j && u32_bit(a, i)),
        (1u32 << j) >= 1u32,
{
}

proof fn lemma_u32_shift(a: u32, b: u32, i: u32)
    by (bit_vector)
    requires
        i < 31,
    ensures
        u32_bit(a >> 1u32, i) == u32_bit(a, (i + 1) as u32),
        !u32_bit(a >> 1u32, 31 as u32),
        a != 0u32 ==> a >> 1u32 < a,
        (a >> 1u32 == 0u32 && !u32_bit(a, 0u32)) ==> a == 0u32,
        a ^ b == 0u32 ==> a == b,
{
}

/// A block with no bit set is zero.
proof fn lemma_u32_clear_is_zero(x: u32)
    requires
        forall|i: int| !x.has_bit(i),
    ensures
        x == 0,
    decreases x,
{
    if x != 0 {
        lemma_u32_shift(x, 0, 0);
        let y = x >> 1u32;
        assert forall|i: int| !y.has_bit(i) by {
            if 0 <= i < 31 {
                lemma_u32_shift(x, 0, i as u32);
                assert(!x.has_bit(i + 1));
            }
        }
        lemma_u32_clear_is_zero(y);
        assert(!x.has_bit(0));
    }
}

impl BitBlock for u32 {
    open spec fn nbits() -> nat {
        32
    }

    open spec fn has_bit(self, i: int) -> bool {
        0 <= i < 32 && u32_bit(self, i as u32)
    }

    proof fn lemma_nbits() {
    }

    proof fn lemma_has_bit_range(b: Self, i: int) {
    }

    proof fn lemma_bits_determine(a: Self, b: Self) {
        assert forall|i: int| !(a ^ b).has_bit(i) by {
            if 0 <= i < 32 {
                lemma_u32_bits(a, b, i as u32, 0);
                assert(a.has_bit(i) == b.has_bit(i));
            }
        }
        lemma_u32_clear_is_zero(a ^ b);
        lemma_u32_shift(a, b, 0);
    }

    proof fn lemma_cloned(a: Self, b: Self) {
    }

    proof fn lemma_size_of() {
        broadcast use layout_of_primitives;
    }

    fn num_bits() -> (r: usize) {
        32
    }

    fn zero() -> (r: Self) {
        proof {
            assert forall|i: int| !(0u32).has_bit(i) by {
                if 0 <= i < 32 {
                    lemma_u32_bits(0, 0, i as u32, 0);
                }
            }
        }
        0
    }

    fn bit(&self, idx: usize) -> (r: bool) {
        (*self >> idx as u32) & 1 == 1
    }

    fn set_bit(&mut self, idx: usize) {
        let ghost a = *self;
        *self = *self | (1u32 << idx as u32);
        proof {
            assert forall|i: int| #[trigger] self.has_bit(i) == (i == idx || a.has_bit(i)) by {
                if 0 <= i < 32 {
                    lemma_u32_bits(a, 0, i as u32, idx as u32);
                }
            }
        }
    }

    fn reset_bit(&mut self, idx: usize) {
        let ghost a = *self;
        *self = *self & !(1u32 << idx as u32);
        proof {
            assert forall|i: int| #[trigger] self.has_bit(i) == (i != idx && a.has_bit(i)) by {
                if 0 <= i < 32 {
                    lemma_u32_bits(a, 0, i as u32, idx as u32);
                }
            }
        }
    }

    fn or(self, rhs: Self) -> (r: Self) {
        proof {
            assert forall|i: int| #[trigger] (self | rhs).has_bit(i) == (self.has_bit(i) || rhs.has_bit(i)) by {
                if 0 <= i < 32 {
                    lemma_u32_bits(self, rhs, i as u32, 0);
                }
            }
        }
        self | rhs
    }

    fn and(self, rhs: Self) -> (r: Self) {
        proof {
            assert forall|i: int| #[trigger] (self & rhs).has_bit(i) == (self.has_bit(i) && rhs.has_bit(i)) by {
                if 0 <= i < 32 {
                    lemma_u32_bits(self, rhs, i as u32, 0);
                }
            }
        }
        self & rhs
    }

    fn xor(self, rhs: Self) -> (r: Self) {
        proof {
            assert forall|i: int| #[trigger] (self ^ rhs).has_bit(i) == (self.has_bit(i) != rhs.has_bit(i)) by {
                if 0 <= i < 32 {
                    lemma_u32_bits(self, rhs, i as u32, 0);
                }
            }
        }
        self ^ rhs
    }

    fn and_not(self, rhs: Self) -> (r: Self) {
        proof {
            assert forall|i: int| #[trigger] (self & !rhs).has_bit(i) == (self.has_bit(i) && !rhs.has_bit(i)) by {
                if 0 <= i < 32 {
                    lemma_u32_bits(self, rhs, i as u32, 0);
                }
            }
        }
        self & !rhs
    }
    fn highest_zeros(&self) -> (r: usize) {
        let z = self.leading_zeros();
        proof {
            axiom_u32_leading_zeros(*self);
            assert forall|i: int| 32 - z <= i implies !#[trigger] self.has_bit(i) by {
                if 0 <= i < 32 {
                    lemma_u32_bits(*self, 0, i as u32, 0);
                    assert((*self >> (i as u32)) & 1u32 == 0u32);
                }
            }
            if z < 32 {
                lemma_u32_bits(*self, 0, (32 - 1 - z) as u32, 0);
            }
        }
        z as usize
    }

    fn lowest_set_bit_from(&self, from: usize) -> (r: Option<usize>) {
        proof {
            lemma_u32_bits(*self, 0, 0, from as u32);
        }
        let masked = *self & !((1u32 << from as u32) - 1);
        let t = masked.trailing_zeros();
        proof {
            axiom_u32_trailing_zeros(masked);
            assert forall|k: int| 0 <= k < 32 implies #[trigger] masked.has_bit(k) == (from <= k && self.has_bit(k)) by {
                lemma_u32_bits(*self, 0, k as u32, from as u32);
            }
            assert forall|k: int| from <= k < t implies !#[trigger] self.has_bit(k) by {
                if k < 32 {
                    assert((masked >> (k as u32)) & 1u32 == 0u32);
                    assert(!masked.has_bit(k));
                }
            }
        }
        if t == 32 {
            proof {
                assert forall|k: int| from <= k implies !#[trigger] self.has_bit(k) by {
                    if k < 32 {
                        assert((masked >> (k as u32)) & 1u32 == 0u32);
                        assert(!masked.has_bit(k));
                    }
                }
            }
            None
        } else {
            proof {
                assert(masked.has_bit(t as int));
            }
            Some(t as usize)
        }
    }
}

pub open spec fn u64_bit(b: u64, i: u64) -> bool {
    (b >> i) & 1u64 == 1u64
}

proof fn lemma_u64_bits(a: u64, b: u64, i: u64, j: u64)
    by (bit_vector)
    requires
        i < 64,
        j < 64,
    ensures
        u64_bit(a | b, i) == (u64_bit(a, i) || u64_bit(b, i)),
        u64_bit(a & b, i) == (u64_bit(a, i) && u64_bit(b, i)),
        u64_bit(a ^ b, i) == (u64_bit(a, i) != u64_bit(b, i)),
        u64_bit(a & !b, i) == (u64_bit(a, i) && !u64_bit(b, i)),
        u64_bit(a | (1u64 << j), i) == (i == j || u64_bit(a, i)),
        u64_bit(a & !(1u64 << j), i) == (i != j && u64_bit(a, i)),
        !u64_bit(0u64, i),
        ((a >> i) & 1u64 != 0u64) == u64_bit(a, i),
        u64_bit(a & !(((1u64 << j) - 1u64) as u64), i) == (i >= j && u64_bit(a, i)),
        (1u64 << j) >= 1u64,
{
}

proof fn lemma_u64_shift(a: u64, b: u64, i: u64)
    by (bit_vector)
    requires
        i < 63,
    ensures
        u64_bit(a >> 1u64, i) == u64_bit(a, (i + 1) as u64),
        !u64_bit(a >> 1u64, 63 as u64),
        a != 0u64 ==> a >> 1u64 < a,
        (a >> 1u64 == 0u64 && !u64_bit(a, 0u64)) ==> a == 0u64,
        a ^ b == 0u64 ==> a == b,
{
}

/// A block with no bit set is zero.
proof fn lemma_u64_clear_is_zero(x: u64)
    requires
        forall|i: int| !x.has_bit(i),
    ensures
        x == 0,
    decreases x,
{
    if x != 0 {
        lemma_u64_shift(x, 0, 0);
        let y = x >> 1u64;
        assert forall|i: int| !y.has_bit(i) by {
            if 0 <= i < 63 {
                lemma_u64_shift(x, 0, i as u64);
                assert(!x.has_bit(i + 1));
            }
        }
        lemma_u64_clear_is_zero(y);
        assert(!x.has_bit(0));
    }
}

impl BitBlock for u64 {
    open spec fn nbits() -> nat {
        64
    }

    open spec fn has_bit(self, i: int) -> bool {
        0 <= i < 64 && u64_bit(self, i as u64)
    }

    proof fn lemma_nbits() {
    }

    proof fn lemma_has_bit_range(b: Self, i: int) {
    }

    proof fn lemma_bits_determine(a: Self, b: Self) {
        assert forall|i: int| !(a ^ b).has_bit(i) by {
            if 0 <= i < 64 {
                lemma_u64_bits(a, b, i as u64, 0);
                assert(a.has_bit(i) == b.has_bit(i));
            }
        }
        lemma_u64_clear_is_zero(a ^ b);
        lemma_u64_shift(a, b, 0);
    }

    proof fn lemma_cloned(a: Self, b: Self) {
    }

    proof fn lemma_size_of() {
        broadcast use layout_of_primitives;
    }

    fn num_bits() -> (r: usize) {
        64
    }

    fn zero() -> (r: Self) {
        proof {
            assert forall|i: int| !(0u64).has_bit(i) by {
                if 0 <= i < 64 {
                    lemma_u64_bits(0, 0, i as u64, 0);
                }
            }
        }
        0
    }

    fn bit(&self, idx: usize) -> (r: bool) {
        (*self >> idx as u64) & 1 == 1
    }

    fn set_bit(&mut self, idx: usize) {
        let ghost a = *self;
        *self = *self | (1u64 << idx as u64);
        proof {
            assert forall|i: int| #[trigger] self.has_bit(i) == (i == idx || a.has_bit(i)) by {
                if 0 <= i < 64 {
                    lemma_u64_bits(a, 0, i as u64, idx as u64);
                }
            }
        }
    }

    fn reset_bit(&mut self, idx: usize) {
        let ghost a = *self;
        *self = *self & !(1u64 << idx as u64);
        proof {
            assert forall|i: int| #[trigger] self.has_bit(i) == (i != idx && a.has_bit(i)) by {
                if 0 <= i < 64 {
                    lemma_u64_bits(a, 0, i as u64, idx as u64);
                }
            }
        }
    }

    fn or(self, rhs: Self) -> (r: Self) {
        proof {
            assert forall|i: int| #[trigger] (self | rhs).has_bit(i) == (self.has_bit(i) || rhs.has_bit(i)) by {
                if 0 <= i < 64 {
                    lemma_u64_bits(self, rhs, i as u64, 0);
                }
            }
        }
        self | rhs
    }

    fn and(self, rhs: Self) -> (r: Self) {
        proof {
            assert forall|i: int| #[trigger] (self & rhs).has_bit(i) == (self.has_bit(i) && rhs.has_bit(i)) by {
                if 0 <= i < 64 {
                    lemma_u64_bits(self, rhs, i as u64, 0);
                }
            }
        }
        self & rhs
    }

    fn xor(self, rhs: Self) -> (r: Self) {
        proof {
            assert forall|i: int| #[trigger] (self ^ rhs).has_bit(i) == (self.has_bit(i) != rhs.has_bit(i)) by {
                if 0 <= i < 64 {
                    lemma_u64_bits(self, rhs, i as u64, 0);
                }
            }
        }
        self ^ rhs
    }

    fn and_not(self, rhs: Self) -> (r: Self) {
        proof {
            assert forall|i: int| #[trigger] (self & !rhs).has_bit(i) == (self.has_bit(i) && !rhs.has_bit(i)) by {
                if 0 <= i < 64 {
                    lemma_u64_bits(self, rhs, i as u64, 0);
                }
            }
        }
        self & !rhs
    }
    fn highest_zeros(&self) -> (r: usize) {
        let z = self.leading_zeros();
        proof {
            axiom_u64_leading_zeros(*self);
            assert forall|i: int| 64 - z <= i implies !#[trigger] self.has_bit(i) by {
                if 0 <= i < 64 {
                    lemma_u64_bits(*self, 0, i as u64, 0);
                    assert((*self >> (i as u64)) & 1u64 == 0u64);
                }
            }
            if z < 64 {
                lemma_u64_bits(*self, 0, (64 - 1 - z) as u64, 0);
            }
        }
        z as usize
    }

    fn lowest_set_bit_from(&self, from: usize) -> (r: Option<usize>) {
        proof {
            lemma_u64_bits(*self, 0, 0, from as u64);
        }
        let masked = *self & !((1u64 << from as u64) - 1);
        let t = masked.trailing_zeros();
        proof {
            axiom_u64_trailing_zeros(masked);
            assert forall|k: int| 0 <= k < 64 implies #[trigger] masked.has_bit(k) == (from <= k && self.has_bit(k)) by {
                lemma_u64_bits(*self, 0, k as u64, from as u64);
            }
            assert forall|k: int| from <= k < t implies !#[trigger] self.has_bit(k) by {
                if k < 64 {
                    assert((masked >> (k as u64)) & 1u64 == 0u64);
                    assert(!masked.has_bit(k));
                }
            }
        }
        if t == 64 {
            proof {
                assert forall|k: int| from <= k implies !#[trigger] self.has_bit(k) by {
                    if k < 64 {
                        assert((masked >> (k as u64)) & 1u64 == 0u64);
                        assert(!masked.has_bit(k));
                    }
                }
            }
            None
        } else {
            proof {
                assert(masked.has_bit(t as int));
            }
            Some(t as usize)
        }
    }
}

pub open spec fn u128_bit(b: u128, i: u128) -> bool {
    (b >> i) & 1u128 == 1u128
}

proof fn lemma_u128_bits(a: u128, b: u128, i: u128, j: u128)
    by (bit_vector)
    requires
        i < 128,
        j < 128,
    ensures
        u128_bit(a | b, i) == (u128_bit(a, i) || u128_bit(b, i)),
        u128_bit(a & b, i) == (u128_bit(a, i) && u128_bit(b, i)),
        u128_bit(a ^ b, i) == (u128_bit(a, i) != u128_bit(b, i)),
        u128_bit(a & !b, i) == (u128_bit(a, i) && !u128_bit(b, i)),
        u128_bit(a | (1u128 << j), i) == (i == j || u128_bit(a, i)),
        u128_bit(a & !(1u128 << j), i) == (i != j && u128_bit(a, i)),
        !u128_bit(0u128, i),
{
}

proof fn lemma_u128_shift(a: u128, b: u128, i: u128)
    by (bit_vector)
    requires
        i < 127,
    ensures
        u128_bit(a >> 1u128, i) == u128_bit(a, (i + 1) as u128),
        !u128_bit(a >> 1u128, 127 as u128),
        a != 0u128 ==> a >> 1u128 < a,
        (a >> 1u128 == 0u128 && !u128_bit(a, 0u128)) ==> a == 0u128,
        a ^ b == 0u128 ==> a == b,
{
}

/// A block with no bit set is zero.
proof fn lemma_u128_clear_is_zero(x: u128)
    requires
        forall|i: int| !x.has_bit(i),
    ensures
        x == 0,
    decreases x,
{
    if x != 0 {
        lemma_u128_shift(x, 0, 0);
        let y = x >> 1u128;
        assert forall|i: int| !y.has_bit(i) by {
            if 0 <= i < 127 {
                lemma_u128_shift(x, 0, i as u128);
                assert(!x.has_bit(i + 1));
            }
        }
        lemma_u128_clear_is_zero(y);
        assert(!x.has_bit(0));
    }
}

impl BitBlock for u128 {
    open spec fn nbits() -> nat {
        128
    }

    open spec fn has_bit(self, i: int) -> bool {
        0 <= i < 128 && u128_bit(self, i as u128)
    }

    proof fn lemma_nbits() {
    }

    proof fn lemma_has_bit_range(b: Self, i: int) {
    }

    proof fn lemma_bits_determine(a: Self, b: Self) {
        assert forall|i: int| !(a ^ b).has_bit(i) by {
            if 0 <= i < 128 {
                lemma_u128_bits(a, b, i as u128, 0);
                assert(a.has_bit(i) == b.has_bit(i));
            }
        }
        lemma_u128_clear_is_zero(a ^ b);
        lemma_u128_shift(a, b, 0);
    }

    proof fn lemma_cloned(a: Self, b: Self) {
    }

    proof fn lemma_size_of() {
        broadcast use layout_of_primitives;
    }

    fn num_bits() -> (r: usize) {
        128
    }

    fn zero() -> (r: Self) {
        proof {
            assert forall|i: int| !(0u128).has_bit(i) by {
                if 0 <= i < 128 {
                    lemma_u128_bits(0, 0, i as u128, 0);
                }
            }
        }
        0
    }

    fn bit(&self, idx: usize) -> (r: bool) {
        (*self >> idx as u128) & 1 == 1
    }

    fn set_bit(&mut self, idx: usize) {
        let ghost a = *self;
        *self = *self | (1u128 << idx as u128);
        proof {
            assert forall|i: int| #[trigger] self.has_bit(i) == (i == idx || a.has_bit(i)) by {
                if 0 <= i < 128 {
                    lemma_u128_bits(a, 0, i as u128, idx as u128);
                }
            }
        }
    }

    fn reset_bit(&mut self, idx: usize) {
        let ghost a = *self;
        *self = *self & !(1u128 << idx as u128);
        proof {
            assert forall|i: int| #[trigger] self.has_bit(i) == (i != idx && a.has_bit(i)) by {
                if 0 <= i < 128 {
                    lemma_u128_bits(a, 0, i as u128, idx as u128);
                }
            }
        }
    }

    fn or(self, rhs: Self) -> (r: Self) {
        proof {
            assert forall|i: int| #[trigger] (self | rhs).has_bit(i) == (self.has_bit(i) || rhs.has_bit(i)) by {
                if 0 <= i < 128 {
                    lemma_u128_bits(self, rhs, i as u128, 0);
                }
            }
        }
        self | rhs
    }

    fn and(self, rhs: Self) -> (r: Self) {
        proof {
            assert forall|i: int| #[trigger] (self & rhs).has_bit(i) == (self.has_bit(i) && rhs.has_bit(i)) by {
                if 0 <= i < 128 {
                    lemma_u128_bits(self, rhs, i as u128, 0);
                }
            }
        }
        self & rhs
    }

    fn xor(self, rhs: Self) -> (r: Self) {
        proof {
            assert forall|i: int| #[trigger] (self ^ rhs).has_bit(i) == (self.has_bit(i) != rhs.has_bit(i)) by {
                if 0 <= i < 128 {
                    lemma_u128_bits(self, rhs, i as u128, 0);
                }
            }
        }
        self ^ rhs
    }

    fn and_not(self, rhs: Self) -> (r: Self) {
        proof {
            assert forall|i: int| #[trigger] (self & !rhs).has_bit(i) == (self.has_bit(i) && !rhs.has_bit(i)) by {
                if 0 <= i < 128 {
                    lemma_u128_bits(self, rhs, i as u128, 0);
                }
            }
        }
        self & !rhs
    }
    fn highest_zeros(&self) -> (r: usize) {
        let n = Self::num_bits();
        let mut z: usize = 0;
        while z < n
            invariant
                n == Self::nbits(),
                z <= n,
                forall|i: int| n - z <= i ==> !#[trigger] self.has_bit(i),
            decreases n - z,
        {
            if self.bit(n - 1 - z) {
                return z;
            }
            z = z + 1;
        }
        z
    }

    fn lowest_set_bit_from(&self, from: usize) -> (r: Option<usize>) {
        let n = Self::num_bits();
        let mut i = from;
        while i < n
            invariant
                n == Self::nbits(),
                from <= i <= n,
                forall|k: int| from <= k < i ==> !#[trigger] self.has_bit(k),
            decreases n - i,
        {
            if self.bit(i) {
                return Some(i);
            }
            i = i + 1;
        }
        None
    }
}

pub open spec fn usize_bit(b: usize, i: usize) -> bool {
    (b >> i) & 1usize == 1usize
}

proof fn lemma_usize_bits(a: usize, b: usize, i: usize, j: usize)
    by (bit_vector)
    requires
        i < usize::BITS,
        j < usize::BITS,
    ensures
        usize_bit(a | b, i) == (usize_bit(a, i) || usize_bit(b, i)),
        usize_bit(a & b, i) == (usize_bit(a, i) && usize_bit(b, i)),
        usize_bit(a ^ b, i) == (usize_bit(a, i) != usize_bit(b, i)),
        usize_bit(a & !b, i) == (usize_bit(a, i) && !usize_bit(b, i)),
        usize_bit(a | (1usize << j), i) == (i == j || usize_bit(a, i)),
        usize_bit(a & !(1usize << j), i) == (i != j && usize_bit(a, i)),
        !usize_bit(0usize, i),
{
}

proof fn lemma_usize_shift(a: usize, b: usize, i: usize)
    by (bit_vector)
    requires
        i < usize::BITS - 1,
    ensures
        usize_bit(a >> 1usize, i) == usize_bit(a, (i + 1) as usize),
        !usize_bit(a >> 1usize, (usize::BITS - 1) as usize),
        a != 0usize ==> a >> 1usize < a,
        (a >> 1usize == 0usize && !usize_bit(a, 0usize)) ==> a == 0usize,
        a ^ b == 0usize ==> a == b,
{
}

/// A block with no bit set is zero.
proof fn lemma_usize_clear_is_zero(x: usize)
    requires
        forall|i: int| !x.has_bit(i),
    ensures
        x == 0,
    decreases x,
{
    if x != 0 {
        lemma_usize_shift(x, 0, 0);
        let y = x >> 1usize;
        assert forall|i: int| !y.has_bit(i) by {
            if 0 <= i < usize::BITS - 1 {
                lemma_usize_shift(x, 0, i as usize);
                assert(!x.has_bit(i + 1));
            }
        }
        lemma_usize_clear_is_zero(y);
        assert(!x.has_bit(0));
    }
}

impl BitBlock for usize {
    open spec fn nbits() -> nat {
        usize::BITS as nat
    }

    open spec fn has_bit(self, i: int) -> bool {
        0 <= i < usize::BITS && usize_bit(self, i as usize)
    }

    proof fn lemma_nbits() {
    }

    proof fn lemma_has_bit_range(b: Self, i: int) {
    }

    proof fn lemma_bits_determine(a: Self, b: Self) {
        assert forall|i: int| !(a ^ b).has_bit(i) by {
            if 0 <= i < usize::BITS {
                lemma_usize_bits(a, b, i as usize, 0);
                assert(a.has_bit(i) == b.has_bit(i));
            }
        }
        lemma_usize_clear_is_zero(a ^ b);
        lemma_usize_shift(a, b, 0);
    }

    proof fn lemma_cloned(a: Self, b: Self) {
    }

    proof fn lemma_size_of() {
        broadcast use layout_of_primitives;
    }

    fn num_bits() -> (r: usize) {
        usize::BITS as usize
    }

    fn zero() -> (r: Self) {
        proof {
            assert forall|i: int| !(0usize).has_bit(i) by {
                if 0 <= i < usize::BITS {
                    lemma_usize_bits(0, 0, i as usize, 0);
                }
            }
        }
        0
    }

    fn bit(&self, idx: usize) -> (r: bool) {
        (*self >> idx) & 1 == 1
    }

    fn set_bit(&mut self, idx: usize) {
        let ghost a = *self;
        *self = *self | (1usize << idx);
        proof {
            assert forall|i: int| #[trigger] self.has_bit(i) == (i == idx || a.has_bit(i)) by {
                if 0 <= i < usize::BITS {
                    lemma_usize_bits(a, 0, i as usize, idx);
                }
            }
        }
    }

    fn reset_bit(&mut self, idx: usize) {
        let ghost a = *self;
        *self = *self & !(1usize << idx);
        proof {
            assert forall|i: int| #[trigger] self.has_bit(i) == (i != idx && a.has_bit(i)) by {
                if 0 <= i < usize::BITS {
                    lemma_usize_bits(a, 0, i as usize, idx);
                }
            }
        }
    }

    fn or(self, rhs: Self) -> (r: Self) {
        proof {
            assert forall|i: int| #[trigger] (self | rhs).has_bit(i) == (self.has_bit(i) || rhs.has_bit(i)) by {
                if 0 <= i < usize::BITS {
                    lemma_usize_bits(self, rhs, i as usize, 0);
                }
            }
        }
        self | rhs
    }

    fn and(self, rhs: Self) -> (r: Self) {
        proof {
            assert forall|i: int| #[trigger] (self & rhs).has_bit(i) == (self.has_bit(i) && rhs.has_bit(i)) by {
                if 0 <= i < usize::BITS {
                    lemma_usize_bits(self, rhs, i as usize, 0);
                }
            }
        }
        self & rhs
    }

    fn xor(self, rhs: Self) -> (r: Self) {
        proof {
            assert forall|i: int| #[trigger] (self ^ rhs).has_bit(i) == (self.has_bit(i) != rhs.has_bit(i)) by {
                if 0 <= i < usize::BITS {
                    lemma_usize_bits(self, rhs, i as usize, 0);
                }
            }
        }
        self ^ rhs
    }

    fn and_not(self, rhs: Self) -> (r: Self) {
        proof {
            assert forall|i: int| #[trigger] (self & !rhs).has_bit(i) == (self.has_bit(i) && !rhs.has_bit(i)) by {
                if 0 <= i < usize::BITS {
                    lemma_usize_bits(self, rhs, i as usize, 0);
                }
            }
        }
        self & !rhs
    }
    fn highest_zeros(&self) -> (r: usize) {
        let n = Self::num_bits();
        let mut z: usize = 0;
        while z < n
            invariant
                n == Self::nbits(),
                z <= n,
                forall|i: int| n - z <= i ==> !#[trigger] self.has_bit(i),
            decreases n - z,
        {
            if self.bit(n - 1 - z) {
                return z;
            }
            z = z + 1;
        }
        z
    }

    fn lowest_set_bit_from(&self, from: usize) -> (r: Option<usize>) {
        let n = Self::num_bits();
        let mut i = from;
        while i < n
            invariant
                n == Self::nbits(),
                from <= i <= n,
                forall|k: int| from <= k < i ==> !#[trigger] self.has_bit(k),
            decreases n - i,
        {
            if self.bit(i) {
                return Some(i);
            }
            i = i + 1;
        }
        None
    }
}

} // verus!
