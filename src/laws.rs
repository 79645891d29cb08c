//! Laws that relate the operations of `BitSet` to each other.

use vstd::prelude::*;

use crate::block::BitBlock;
use crate::{lemma_canonical, lemma_same_bits_iff_equal, lists_ascending, same_bits, sym_diff, BitSet};

verus! {

/// Inserting `x` and then removing it leaves `x` out of the set. When `x` was
/// not in the set before, the set is back to what it was, logical length and
/// blocks included, even when `x` was above every element.
pub proof fn lemma_insert_then_remove<T: BitBlock>(
    s: BitSet<T>,
    x: usize,
    inserted: BitSet<T>,
    removed: BitSet<T>,
)
    requires
        s.wf(),
        inserted.wf(),
        removed.wf(),
        inserted@ == s@.insert(x),
        removed@ == inserted@.remove(x),
    ensures
        !removed@.contains(x),
        !s@.contains(x) ==> removed@ == s@ && removed.bit_len() == s.bit_len() && removed.blocks()
            == s.blocks(),
{
    if !s@.contains(x) {
        assert(removed@ =~= s@);
        lemma_canonical(&s, &removed);
    }
}

/// The union, intersection and symmetric difference of two sets do not depend
/// on the order of the operands: computed either way, the results are equal.
pub proof fn lemma_commutative<T: BitBlock>(
    a: BitSet<T>,
    b: BitSet<T>,
    ab: BitSet<T>,
    ba: BitSet<T>,
)
    requires
        a.wf(),
        b.wf(),
        ab.wf(),
        ba.wf(),
        (ab@ == a@.union(b@) && ba@ == b@.union(a@)) || (ab@ == a@.intersect(b@) && ba@ == b@.intersect(a@))
            || (ab@ == sym_diff(a@, b@) && ba@ == sym_diff(b@, a@)),
    ensures
        ab@ == ba@,
        same_bits(&ab, &ba),
{
    assert(a@.union(b@) =~= b@.union(a@));
    assert(a@.intersect(b@) =~= b@.intersect(a@));
    assert(sym_diff(a@, b@) =~= sym_diff(b@, a@));
    lemma_same_bits_iff_equal(&ab, &ba);
}

/// The set algebra of sets built from two lists of values is the algebra of
/// the lists' values: union is the set of both lists together, and
/// intersection, difference and symmetric difference keep exactly the values
/// in both lists, in the first only, and in exactly one.
pub proof fn lemma_algebra_of_lists(v1: Seq<usize>, v2: Seq<usize>, a: Set<usize>, b: Set<usize>)
    requires
        a == v1.to_set(),
        b == v2.to_set(),
    ensures
        a.union(b) == (v1 + v2).to_set(),
        forall|x: usize| #[trigger] a.intersect(b).contains(x) <==> v1.contains(x) && v2.contains(x),
        forall|x: usize| #[trigger] a.difference(b).contains(x) <==> v1.contains(x) && !v2.contains(x),
        forall|x: usize| #[trigger] sym_diff(a, b).contains(x) <==> (v1.contains(x) != v2.contains(x)),
{
    assert forall|x: usize| #[trigger] (v1 + v2).contains(x) <==> v1.contains(x) || v2.contains(x) by {
        if (v1 + v2).contains(x) {
            let k = choose|k: int| 0 <= k < (v1 + v2).len() && (v1 + v2)[k] == x;
            if k < v1.len() {
                assert(v1[k] == x);
            } else {
                assert(v2[k - v1.len()] == x);
            }
        }
        if v1.contains(x) {
            let k = choose|k: int| 0 <= k < v1.len() && v1[k] == x;
            assert((v1 + v2)[k] == x);
        }
        if v2.contains(x) {
            let k = choose|k: int| 0 <= k < v2.len() && v2[k] == x;
            assert((v1 + v2)[v1.len() + k] == x);
        }
    }
    assert(a.union(b) =~= (v1 + v2).to_set());
}

/// Every set is a subset of itself and not a proper subset of itself. When
/// `a` is a subset of `b` with fewer elements, `a` is a proper subset of `b`
/// and `b` is not a subset of `a`.
pub proof fn lemma_subset_order<T: BitBlock>(a: BitSet<T>, b: BitSet<T>)
    requires
        a.wf(),
        b.wf(),
    ensures
        a@.subset_of(a@),
        !(a@.subset_of(a@) && a@ != a@),
        a@.subset_of(b@) && a@.len() < b@.len() ==> (a@.subset_of(b@) && a@ != b@) && !b@.subset_of(a@),
{
    a.lemma_wf_view();
    b.lemma_wf_view();
    if a@.subset_of(b@) && a@.len() < b@.len() && b@.subset_of(a@) {
        assert(a@ =~= b@);
    }
}

/// A set has one listing in strictly ascending order.
pub proof fn lemma_listing_unique(q1: Seq<usize>, q2: Seq<usize>, s: Set<usize>)
    requires
        lists_ascending(q1, s),
        lists_ascending(q2, s),
    ensures
        q1 == q2,
{
    lemma_listing_prefix(q1, q2, s, if q1.len() <= q2.len() { q1.len() as int } else { q2.len() as int });
    if q1.len() < q2.len() {
        assert(s.contains(q2[q1.len() as int]));
        let m = choose|m: int| 0 <= m < q1.len() && q1[m] == q2[q1.len() as int];
        assert(q2[m] < q2[q1.len() as int]);
    } else if q2.len() < q1.len() {
        assert(s.contains(q1[q2.len() as int]));
        let m = choose|m: int| 0 <= m < q2.len() && q2[m] == q1[q2.len() as int];
        assert(q1[m] < q1[q2.len() as int]);
    }
    assert(q1 =~= q2);
}

/// Two ascending listings of one set agree on their first `i` entries.
proof fn lemma_listing_prefix(q1: Seq<usize>, q2: Seq<usize>, s: Set<usize>, i: int)
    requires
        lists_ascending(q1, s),
        lists_ascending(q2, s),
        0 <= i <= q1.len(),
        i <= q2.len(),
    ensures
        forall|k: int| 0 <= k < i ==> q1[k] == q2[k],
    decreases i,
{
    if i > 0 {
        lemma_listing_prefix(q1, q2, s, i - 1);
        let k = i - 1;
        assert(s.contains(q1[k]));
        assert(s.contains(q2[k]));
        let m1 = choose|m: int| 0 <= m < q2.len() && q2[m] == q1[k];
        let m2 = choose|m: int| 0 <= m < q1.len() && q1[m] == q2[k];
        if m1 < k {
            assert(q1[m1] == q2[m1]);
            assert(q1[m1] < q1[k]);
        }
        if m2 < k {
            assert(q1[m2] == q2[m2]);
            assert(q2[m2] < q2[k]);
        }
        if m1 > k {
            assert(q2[k] < q2[m1]);
        }
        if m2 > k {
            assert(q1[k] < q1[m2]);
        }
    }
}

/// Collecting `values` into a set and listing the set in ascending order gives
/// the values of `values` in strictly ascending order, each once.
pub proof fn lemma_collect_then_list(values: Seq<usize>, s: Set<usize>, listed: Seq<usize>)
    requires
        s == values.to_set(),
        lists_ascending(listed, s),
    ensures
        listed.no_duplicates(),
        forall|i: int, j: int| 0 <= i < j < listed.len() ==> listed[i] < listed[j],
        forall|x: usize| #[trigger] listed.contains(x) <==> values.contains(x),
        forall|q: Seq<usize>| #[trigger] lists_ascending(q, s) ==> q == listed,
{
    assert forall|q: Seq<usize>| #[trigger] lists_ascending(q, s) implies q == listed by {
        lemma_listing_unique(q, listed, s);
    }
    assert forall|x: usize| #[trigger] listed.contains(x) <==> values.contains(x) by {
        assert(s.contains(x) <==> listed.contains(x));
    }
}

} // verus!
