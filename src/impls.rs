//! Equality, construction from a list of values, listing in ascending order,
//! and the `{a, b, c}` text form.

use vstd::prelude::*;
use vstd::string::StringExecFns;

use crate::block::{block_is_clear, BitBlock};
use crate::position::{lemma_join, lemma_split};
use crate::{blocks_have, lemma_bit_len_unique, lemma_listing_unique, width, BitSet};

verus! {

/// `a` and `b` have the same logical length, the same number of blocks, and
/// the same bits in each block.
pub closed spec fn same_bits<T: BitBlock>(a: &BitSet<T>, b: &BitSet<T>) -> bool {
    &&& a.num_bits == b.num_bits
    &&& a.vec@.len() == b.vec@.len()
    &&& forall|k: int, o: int|
        0 <= k < a.vec@.len() ==> #[trigger] a.vec@[k].has_bit(o) == b.vec@[k].has_bit(o)
}

impl<T: BitBlock> PartialEq for BitSet<T> {
    fn eq(&self, other: &Self) -> (r: bool) {
        if self.num_bits != other.num_bits || self.vec.len() != other.vec.len() {
            return false;
        }
        let mut i: usize = 0;
        while i < self.vec.len()
            invariant
                self.vec@.len() == other.vec@.len(),
                i <= self.vec@.len(),
                forall|k: int, o: int|
                    0 <= k < i ==> #[trigger] self.vec@[k].has_bit(o) == other.vec@[k].has_bit(o),
            decreases self.vec@.len() - i,
        {
            let d = self.vec[i].xor(other.vec[i]);
            if !block_is_clear(&d) {
                proof {
                    let o = choose|o: int| d.has_bit(o);
                    assert(self.vec@[i as int].has_bit(o) != other.vec@[i as int].has_bit(o));
                }
                return false;
            }
            proof {
                assert forall|o: int| #[trigger] self.vec@[i as int].has_bit(o) == other.vec@[i as int].has_bit(o) by {
                    assert(!d.has_bit(o));
                }
            }
            i = i + 1;
        }
        true
    }
}

impl<T: BitBlock> vstd::std_specs::cmp::PartialEqSpecImpl for BitSet<T> {
    open spec fn obeys_eq_spec() -> bool {
        true
    }

    open spec fn eq_spec(&self, other: &BitSet<T>) -> bool {
        same_bits(self, other)
    }
}

impl<T: BitBlock> Eq for BitSet<T> {

}

impl<T: BitBlock> Default for BitSet<T> {
    fn default() -> (r: Self)
        ensures
            r.wf(),
            r@ == Set::<usize>::empty(),
    {
        BitSet::new()
    }
}

/// Two compact sets have the same bits exactly when they have the same
/// elements.
pub proof fn lemma_same_bits_iff_equal<T: BitBlock>(a: &BitSet<T>, b: &BitSet<T>)
    requires
        a.wf(),
        b.wf(),
    ensures
        same_bits(a, b) <==> a@ == b@,
{
    T::lemma_nbits();
    let w = width::<T>();
    if same_bits(a, b) {
        assert forall|j: int| #[trigger] blocks_have(a.vec@, j) == blocks_have(b.vec@, j) by {
            if 0 <= j {
                lemma_split(j, w);
            }
        }
        assert(a@ =~= b@);
    }
    if a@ == b@ {
        a.lemma_wf_view();
        b.lemma_wf_view();
        lemma_bit_len_unique(a@, a.num_bits as int, b.num_bits as int);
        assert forall|k: int, o: int|
            0 <= k < a.vec@.len() implies #[trigger] a.vec@[k].has_bit(o) == b.vec@[k].has_bit(o) by {
            if a.vec@[k].has_bit(o) != b.vec@[k].has_bit(o) {
                T::lemma_has_bit_range(a.vec@[k], o);
                T::lemma_has_bit_range(b.vec@[k], o);
                lemma_join(k, o, w);
                assert(0 <= k * w) by (nonlinear_arith)
                    requires
                        0 <= k,
                        0 < w,
                ;
                let j = k * w + o;
                if a.vec@[k].has_bit(o) {
                    assert(blocks_have(a.vec@, j));
                    assert(a@.contains(j as usize));
                } else {
                    assert(blocks_have(b.vec@, j));
                    assert(b@.contains(j as usize));
                }
            }
        }
    }
}

/// A compact set is stored one way only: two compact sets with the same
/// elements have the same blocks and the same logical length.
pub proof fn lemma_canonical<T: BitBlock>(a: &BitSet<T>, b: &BitSet<T>)
    requires
        a.wf(),
        b.wf(),
        a@ == b@,
    ensures
        a.blocks() == b.blocks(),
        a.bit_len() == b.bit_len(),
{
    lemma_same_bits_iff_equal(a, b);
    assert forall|k: int| 0 <= k < a.vec@.len() implies a.vec@[k] == b.vec@[k] by {
        assert forall|o: int| a.vec@[k].has_bit(o) == b.vec@[k].has_bit(o) by {
            assert(same_bits(a, b));
        }
        T::lemma_bits_determine(a.vec@[k], b.vec@[k]);
    }
    assert(a.vec@ =~= b.vec@);
}

/// `q` lists the elements of `s` in strictly ascending order.
pub open spec fn lists_ascending(q: Seq<usize>, s: Set<usize>) -> bool {
    &&& forall|i: int, j: int| 0 <= i < j < q.len() ==> q[i] < q[j]
    &&& forall|x: usize| #[trigger] s.contains(x) <==> q.contains(x)
}

/// The character of decimal digit `d`.
pub open spec fn digit_char(d: nat) -> char {
    if d == 0 {
        '0'
    } else if d == 1 {
        '1'
    } else if d == 2 {
        '2'
    } else if d == 3 {
        '3'
    } else if d == 4 {
        '4'
    } else if d == 5 {
        '5'
    } else if d == 6 {
        '6'
    } else if d == 7 {
        '7'
    } else if d == 8 {
        '8'
    } else {
        '9'
    }
}

/// The decimal digits of `n`, most significant first.
pub open spec fn decimal(n: nat) -> Seq<char>
    decreases n,
{
    if n < 10 {
        seq![digit_char(n)]
    } else {
        decimal(n / 10).push(digit_char(n % 10))
    }
}

/// The numbers of `q` in decimal, separated by `", "`.
pub open spec fn joined(q: Seq<usize>) -> Seq<char>
    decreases q.len(),
{
    if q.len() == 0 {
        Seq::empty()
    } else if q.len() == 1 {
        decimal(q[0] as nat)
    } else {
        joined(q.drop_last()) + seq![',', ' '] + decimal(q.last() as nat)
    }
}

/// The numbers of `q` in decimal, separated by `", "`, between braces.
pub open spec fn braced(q: Seq<usize>) -> Seq<char> {
    seq!['{'] + joined(q) + seq!['}']
}

fn digit_str(d: usize) -> (r: &'static str)
    requires
        d < 10,
    ensures
        r@ == seq![digit_char(d as nat)],
{
    proof {
        reveal_strlit("0");
        reveal_strlit("1");
        reveal_strlit("2");
        reveal_strlit("3");
        reveal_strlit("4");
        reveal_strlit("5");
        reveal_strlit("6");
        reveal_strlit("7");
        reveal_strlit("8");
        reveal_strlit("9");
    }
    if d == 0 {
        "0"
    } else if d == 1 {
        "1"
    } else if d == 2 {
        "2"
    } else if d == 3 {
        "3"
    } else if d == 4 {
        "4"
    } else if d == 5 {
        "5"
    } else if d == 6 {
        "6"
    } else if d == 7 {
        "7"
    } else if d == 8 {
        "8"
    } else {
        "9"
    }
}

/// Appends the decimal digits of `n` to `out`.
fn append_decimal(out: &mut String, n: usize)
    ensures
        final(out)@ == old(out)@ + decimal(n as nat),
    decreases n,
{
    if n >= 10 {
        append_decimal(out, n / 10);
    }
    out.append(digit_str(n % 10));
    proof {
        if n >= 10 {
            assert(decimal(n as nat) == decimal((n / 10) as nat).push(digit_char((n % 10) as nat)));
        }
    }
}

impl<T: BitBlock> BitSet<T> {
    /// Inserts every value of `values`.
    pub fn extend(&mut self, values: &[usize])
        requires
            old(self).wf(),
            forall|i: int| 0 <= i < values@.len() ==> values@[i] < usize::MAX,
        ensures
            final(self).wf(),
            final(self)@ == old(self)@.union(values@.to_set()),
    {
        let mut i: usize = 0;
        while i < values.len()
            invariant
                self.wf(),
                i <= values@.len(),
                forall|i: int| 0 <= i < values@.len() ==> values@[i] < usize::MAX,
                self@ == old(self)@.union(values@.subrange(0, i as int).to_set()),
            decreases values@.len() - i,
        {
            self.insert(values[i]);
            proof {
                assert(values@.subrange(0, i + 1) == values@.subrange(0, i as int).push(values@[i as int]));
                values@.subrange(0, i as int).lemma_push_to_set_commute(values@[i as int]);
                assert(self@ =~= old(self)@.union(values@.subrange(0, i + 1).to_set()));
            }
            i = i + 1;
        }
        proof {
            assert(values@.subrange(0, values@.len() as int) == values@);
        }
    }

    /// The set of the values of `values`.
    pub fn from_slice(values: &[usize]) -> (r: Self)
        requires
            forall|i: int| 0 <= i < values@.len() ==> values@[i] < usize::MAX,
        ensures
            r.wf(),
            r@ == values@.to_set(),
    {
        let mut r = Self::new();
        r.extend(values);
        proof {
            assert(r@ =~= values@.to_set());
        }
        r
    }

    /// The elements in strictly ascending order.
    pub fn to_vec(&self) -> (r: Vec<usize>)
        requires
            self.wf(),
        ensures
            lists_ascending(r@, self@),
    {
        let mut it = self.iter();
        let mut out: Vec<usize> = Vec::new();
        loop
            invariant_except_break
                forall|i: int| 0 <= i < out@.len() ==> out@[i] < it.pos(),
                forall|x: usize| x < it.pos() ==> (#[trigger] self@.contains(x) <==> out@.contains(x)),
            invariant
                it.wf(),
                it.members() == self@,
                forall|i: int, j: int| 0 <= i < j < out@.len() ==> out@[i] < out@[j],
            ensures
                lists_ascending(out@, self@),
            decreases usize::MAX + 1 - it.pos(),
        {
            let ghost before = out@;
            let ghost p = it.pos();
            match it.next() {
                Some(x) => {
                    out.push(x);
                    proof {
                        assert forall|y: usize| y < it.pos() implies (#[trigger] self@.contains(y) <==> out@.contains(y)) by {
                            if y < p {
                                assert(self@.contains(y) <==> before.contains(y));
                                if before.contains(y) {
                                    let k = choose|k: int| 0 <= k < before.len() && before[k] == y;
                                    assert(out@[k] == y);
                                }
                                if out@.contains(y) {
                                    let k = choose|k: int| 0 <= k < out@.len() && out@[k] == y;
                                    if k < before.len() {
                                        assert(before[k] == y);
                                    }
                                }
                            } else if y == x {
                                assert(out@[before.len() as int] == y);
                            } else {
                                assert(!self@.contains(y));
                                if out@.contains(y) {
                                    let k = choose|k: int| 0 <= k < out@.len() && out@[k] == y;
                                    if k < before.len() {
                                        assert(before[k] < p);
                                    }
                                }
                            }
                        }
                    }
                },
                None => {
                    proof {
                        assert forall|y: usize| #[trigger] self@.contains(y) <==> out@.contains(y) by {
                            if y >= p {
                                assert(!self@.contains(y));
                                if out@.contains(y) {
                                    let k = choose|k: int| 0 <= k < out@.len() && out@[k] == y;
                                }
                            }
                        }
                    }
                    break;
                },
            }
        }
        out
    }

    /// The elements in ascending decimal, separated by `", "`, between braces:
    /// `{0, 7, 14, 37}`, or `{}` for the empty set.
    pub fn to_debug_string(&self) -> (r: String)
        requires
            self.wf(),
        ensures
            exists|q: Seq<usize>| lists_ascending(q, self@),
            forall|q: Seq<usize>| lists_ascending(q, self@) ==> r@ == braced(q),
    {
        let elems = self.to_vec();
        let mut out = String::new();
        out.append("{");
        proof {
            reveal_strlit("{");
            reveal_strlit(", ");
            reveal_strlit("}");
        }
        let mut i: usize = 0;
        while i < elems.len()
            invariant
                i <= elems@.len(),
                out@ == seq!['{'] + joined(elems@.subrange(0, i as int)),
            decreases elems@.len() - i,
        {
            if i > 0 {
                out.append(", ");
            }
            append_decimal(&mut out, elems[i]);
            proof {
                reveal_strlit(", ");
                let q = elems@.subrange(0, i + 1);
                assert(q.drop_last() == elems@.subrange(0, i as int));
                assert(q.last() == elems@[i as int]);
                if i == 0 {
                    assert(joined(elems@.subrange(0, 0)) == Seq::<char>::empty());
                    assert(joined(q) == decimal(elems@[0] as nat));
                    assert(out@ =~= seq!['{'] + joined(q));
                } else {
                    assert(out@ =~= seq!['{'] + joined(q));
                }
            }
            i = i + 1;
        }
        out.append("}");
        proof {
            assert(elems@.subrange(0, elems@.len() as int) == elems@);
            assert(out@ =~= braced(elems@));
            assert forall|q: Seq<usize>| lists_ascending(q, self@) implies out@ == braced(q) by {
                lemma_listing_unique(q, elems@, self@);
            }
        }
        out
    }
}

} // verus!
