//! Verified in-place sorting of a sub-range of a vector of distinct elements,
//! plainly or by a key, together with the ordering vocabulary the rest of the
//! crate states its contracts with.

use vstd::prelude::*;
use vstd::seq_lib::group_to_multiset_ensures;
use vstd::multiset::group_multiset_axioms;

verus! {

/// Strict order on elements `a`, `b` under `key`: first by `key`, ties by the
/// elements themselves.
pub open spec fn lex_lt(key: Seq<u64>, a: usize, b: usize) -> bool {
    key[a as int] < key[b as int] || (key[a as int] == key[b as int] && a < b)
}

/// The positions `lo..hi` of `s` hold pairwise distinct values.
pub open spec fn range_distinct(s: Seq<usize>, lo: int, hi: int) -> bool {
    forall|p: int, q: int| lo <= p < q < hi ==> s[p] != s[q]
}

/// The positions `lo..hi` of `s` are in strictly increasing order.
pub open spec fn range_sorted(s: Seq<usize>, lo: int, hi: int) -> bool {
    forall|p: int, q: int| lo <= p < q < hi ==> s[p] < s[q]
}

/// The positions `lo..hi` of `s` are in strictly increasing `lex_lt` order
/// under `key`.
pub open spec fn range_sorted_by_key(s: Seq<usize>, key: Seq<u64>, lo: int, hi: int) -> bool {
    forall|p: int, q: int| lo <= p < q < hi ==> lex_lt(key, s[p], s[q])
}

/// `s2` agrees with `s1` everywhere outside `lo..hi`.
pub open spec fn same_outside(s1: Seq<usize>, s2: Seq<usize>, lo: int, hi: int) -> bool {
    s2.len() == s1.len()
    && forall|p: int| 0 <= p < s1.len() && !(lo <= p < hi) ==> s2[p] == s1[p]
}

/// The multisets of values held by positions `lo..hi` agree in `s1` and `s2`.
pub open spec fn same_range_multiset(s1: Seq<usize>, s2: Seq<usize>, lo: int, hi: int) -> bool {
    s1.subrange(lo, hi).to_multiset() == s2.subrange(lo, hi).to_multiset()
}

/// Swaps two positions of a vector; the multiset of values is unchanged.
pub(crate) fn swap_positions(v: &mut Vec<usize>, i: usize, j: usize)
    requires
        i < old(v)@.len(),
        j < old(v)@.len(),
    ensures
        final(v)@ == old(v)@.update(i as int, old(v)@[j as int]).update(
            j as int,
            old(v)@[i as int],
        ),
        final(v)@.to_multiset() == old(v)@.to_multiset(),
        final(v)@.len() == old(v)@.len(),
{
    let a = v[i];
    let b = v[j];
    v.set(i, b);
    v.set(j, a);
    proof {
        broadcast use group_to_multiset_ensures, group_multiset_axioms;

        let s = old(v)@;
        assert(s.to_multiset().contains(s[i as int]));
        assert(v@.to_multiset() =~= s.to_multiset());
    }
}

/// A value contained in a sub-range under multiset equality is contained in
/// the matching sub-range of the other sequence.
pub(crate) proof fn lemma_range_multiset_in_range(
    s1: Seq<usize>,
    s2: Seq<usize>,
    lo: int,
    hi: int,
    p: int,
)
    requires
        0 <= lo <= hi <= s1.len(),
        hi <= s2.len(),
        same_range_multiset(s1, s2, lo, hi),
        lo <= p < hi,
    ensures
        exists|q: int| lo <= q < hi && s2[q] == s1[p],
{
    broadcast use group_to_multiset_ensures;

    let r1 = s1.subrange(lo, hi);
    let r2 = s2.subrange(lo, hi);
    assert(r1[p - lo] == s1[p]);
    assert(r1.contains(s1[p]));
    assert(r2.to_multiset().count(s1[p]) > 0);
    assert(r2.contains(s1[p]));
    let q0 = choose|q0: int| 0 <= q0 < r2.len() && r2[q0] == s1[p];
    assert(s2[q0 + lo] == s1[p]);
}

/// Every value in `lo..hi` of `s2` stays below `bound` if that holds of `s1`,
/// given equal range multisets.
pub(crate) proof fn lemma_range_multiset_bound(
    s1: Seq<usize>,
    s2: Seq<usize>,
    lo: int,
    hi: int,
    bound: int,
)
    requires
        0 <= lo <= hi <= s1.len(),
        hi <= s2.len(),
        same_range_multiset(s1, s2, lo, hi),
        forall|p: int| lo <= p < hi ==> s1[p] < bound,
    ensures
        forall|p: int| lo <= p < hi ==> s2[p] < bound,
{
    assert forall|p: int| lo <= p < hi implies s2[p] < bound by {
        lemma_range_multiset_in_range(s2, s1, lo, hi, p);
    }
}

/// Distinctness of a range is preserved under equal range multisets.
pub(crate) proof fn lemma_range_multiset_distinct(s1: Seq<usize>, s2: Seq<usize>, lo: int, hi: int)
    requires
        0 <= lo <= hi <= s1.len(),
        hi <= s2.len(),
        same_range_multiset(s1, s2, lo, hi),
        range_distinct(s1, lo, hi),
    ensures
        range_distinct(s2, lo, hi),
{
    broadcast use group_to_multiset_ensures;

    let r1 = s1.subrange(lo, hi);
    let r2 = s2.subrange(lo, hi);
    assert(forall|p: int, q: int| 0 <= p < q < r1.len() ==> r1[p] != r1[q]);
    r1.lemma_multiset_has_no_duplicates();
    r2.lemma_multiset_has_no_duplicates_conv();
    assert forall|p: int, q: int| lo <= p < q < hi implies s2[p] != s2[q] by {
        assert(r2[p - lo] == s2[p]);
        assert(r2[q - lo] == s2[q]);
    }
}

/// Sorts `v[lo..hi)` in place into strictly increasing `lex_lt` order under
/// `key`. Positions outside the range and the multiset of values inside it
/// are unchanged.
pub(crate) fn sort_range_by_key(v: &mut Vec<usize>, lo: usize, hi: usize, key: &Vec<u64>)
    requires
        lo <= hi <= old(v)@.len(),
        range_distinct(old(v)@, lo as int, hi as int),
        forall|p: int| lo <= p < hi ==> old(v)@[p] < key@.len(),
    ensures
        final(v)@.len() == old(v)@.len(),
        same_outside(old(v)@, final(v)@, lo as int, hi as int),
        same_range_multiset(old(v)@, final(v)@, lo as int, hi as int),
        range_sorted_by_key(final(v)@, key@, lo as int, hi as int),
        range_distinct(final(v)@, lo as int, hi as int),
{
    let ghost orig = v@;
    let mut i: usize = lo;
    while i < hi
        invariant
            lo <= i <= hi <= v@.len(),
            v@.len() == orig.len(),
            same_outside(orig, v@, lo as int, hi as int),
            same_range_multiset(orig, v@, lo as int, hi as int),
            range_distinct(orig, lo as int, hi as int),
            range_distinct(v@, lo as int, hi as int),
            forall|p: int| lo <= p < hi ==> v@[p] < key@.len(),
            range_sorted_by_key(v@, key@, lo as int, i as int),
        decreases hi - i,
    {
        let mut j: usize = i;
        while j > lo
            invariant
                lo <= j <= i < hi <= v@.len(),
                v@.len() == orig.len(),
                same_outside(orig, v@, lo as int, hi as int),
                same_range_multiset(orig, v@, lo as int, hi as int),
                range_distinct(orig, lo as int, hi as int),
                range_distinct(v@, lo as int, hi as int),
                forall|p: int| lo <= p < hi ==> v@[p] < key@.len(),
                forall|p: int, q: int|
                    lo <= p < q <= i && q != j ==> lex_lt(key@, v@[p], v@[q]),
            ensures
                lo <= j <= i,
                j > lo ==> lex_lt(key@, v@[j - 1], v@[j as int]),
            decreases j,
        {
            let a = v[j - 1];
            let b = v[j];
            if key[a] < key[b] || (key[a] == key[b] && a < b) {
                break;
            }
            let ghost before = v@;
            swap_positions(v, j - 1, j);
            proof {
                assert(same_range_multiset(before, v@, lo as int, hi as int)) by {
                    assert(before.subrange(lo as int, hi as int).to_multiset()
                        =~= v@.subrange(lo as int, hi as int).to_multiset()) by {
                        broadcast use group_to_multiset_ensures, group_multiset_axioms;

                        let rb = before.subrange(lo as int, hi as int);
                        let ra = v@.subrange(lo as int, hi as int);
                        assert(ra =~= rb.update(j - 1 - lo, rb[j - lo]).update(
                            j - lo,
                            rb[j - 1 - lo],
                        ));
                        assert(rb.to_multiset().contains(rb[j - 1 - lo]));
                    }
                }
                lemma_range_multiset_distinct(orig, v@, lo as int, hi as int);
            }
            j = j - 1;
        }
        proof {
            assert forall|p: int, q: int| lo <= p < q <= i implies lex_lt(key@, v@[p], v@[q]) by {
                if q == j {
                    assert(lex_lt(key@, v@[j - 1], v@[j as int]));
                    if p < j - 1 {
                        assert(lex_lt(key@, v@[p], v@[j - 1]));
                    }
                }
            }
        }
        i = i + 1;
    }
}

/// Sorts `v[lo..hi)` in place into strictly increasing order. Positions
/// outside the range and the multiset of values inside it are unchanged.
pub(crate) fn sort_range(v: &mut Vec<usize>, lo: usize, hi: usize)
    requires
        lo <= hi <= old(v)@.len(),
        range_distinct(old(v)@, lo as int, hi as int),
    ensures
        final(v)@.len() == old(v)@.len(),
        same_outside(old(v)@, final(v)@, lo as int, hi as int),
        same_range_multiset(old(v)@, final(v)@, lo as int, hi as int),
        range_sorted(final(v)@, lo as int, hi as int),
        range_distinct(final(v)@, lo as int, hi as int),
{
    let ghost orig = v@;
    let mut i: usize = lo;
    while i < hi
        invariant
            lo <= i <= hi <= v@.len(),
            v@.len() == orig.len(),
            same_outside(orig, v@, lo as int, hi as int),
            same_range_multiset(orig, v@, lo as int, hi as int),
            range_distinct(orig, lo as int, hi as int),
            range_distinct(v@, lo as int, hi as int),
            range_sorted(v@, lo as int, i as int),
        decreases hi - i,
    {
        let mut j: usize = i;
        while j > lo
            invariant
                lo <= j <= i < hi <= v@.len(),
                v@.len() == orig.len(),
                same_outside(orig, v@, lo as int, hi as int),
                same_range_multiset(orig, v@, lo as int, hi as int),
                range_distinct(orig, lo as int, hi as int),
                range_distinct(v@, lo as int, hi as int),
                forall|p: int, q: int| lo <= p < q <= i && q != j ==> v@[p] < v@[q],
            ensures
                lo <= j <= i,
                j > lo ==> v@[j - 1] < v@[j as int],
            decreases j,
        {
            if v[j - 1] < v[j] {
                break;
            }
            let ghost before = v@;
            swap_positions(v, j - 1, j);
            proof {
                assert(same_range_multiset(before, v@, lo as int, hi as int)) by {
                    assert(before.subrange(lo as int, hi as int).to_multiset()
                        =~= v@.subrange(lo as int, hi as int).to_multiset()) by {
                        broadcast use group_to_multiset_ensures, group_multiset_axioms;

                        let rb = before.subrange(lo as int, hi as int);
                        let ra = v@.subrange(lo as int, hi as int);
                        assert(ra =~= rb.update(j - 1 - lo, rb[j - lo]).update(
                            j - lo,
                            rb[j - 1 - lo],
                        ));
                        assert(rb.to_multiset().contains(rb[j - 1 - lo]));
                    }
                }
                lemma_range_multiset_distinct(orig, v@, lo as int, hi as int);
            }
            j = j - 1;
        }
        proof {
            assert forall|p: int, q: int| lo <= p < q <= i implies v@[p] < v@[q] by {
                if q == j && p < j - 1 {
                    assert(v@[p] < v@[j - 1]);
                }
            }
        }
        i = i + 1;
    }
}


/// The view of a vector never exceeds `usize::MAX` entries.
pub(crate) proof fn lemma_vec_len_bound<T>(v: &Vec<T>)
    ensures
        v@.len() <= usize::MAX,
{
    broadcast use vstd::std_specs::vec::axiom_spec_len;

    assert(vstd::std_specs::vec::spec_vec_len(v) == v@.len());
}


/// Swapping two positions inside `lo..hi` changes nothing outside the range
/// and keeps the range's multiset.
pub(crate) proof fn lemma_swap_range_multiset(
    s1: Seq<usize>,
    s2: Seq<usize>,
    i: int,
    j: int,
    lo: int,
    hi: int,
)
    requires
        0 <= lo <= i < hi <= s1.len(),
        lo <= j < hi,
        s2 == s1.update(i, s1[j]).update(j, s1[i]),
    ensures
        same_outside(s1, s2, lo, hi),
        same_range_multiset(s1, s2, lo, hi),
{
    broadcast use group_to_multiset_ensures, group_multiset_axioms;

    if i == j {
        assert(s2 =~= s1);
        assert(s1.subrange(lo, hi).to_multiset() =~= s2.subrange(lo, hi).to_multiset());
    } else {
        let r1 = s1.subrange(lo, hi);
        let r2 = s2.subrange(lo, hi);
        assert(r2 =~= r1.update(i - lo, r1[j - lo]).update(j - lo, r1[i - lo]));
        assert(r1.to_multiset().contains(r1[i - lo]));
        assert(r2.to_multiset() =~= r1.to_multiset());
    }
}

/// A shared left endpoint extends multiset equality one position to the left.
pub(crate) proof fn lemma_range_multiset_widen_left(s1: Seq<usize>, s2: Seq<usize>, lo: int, hi: int)
    requires
        0 <= lo < hi <= s1.len(),
        s2.len() == s1.len(),
        s1[lo] == s2[lo],
        same_range_multiset(s1, s2, lo + 1, hi),
    ensures
        same_range_multiset(s1, s2, lo, hi),
{
    broadcast use group_to_multiset_ensures, group_multiset_axioms;

    assert(s1.subrange(lo, hi) =~= seq![s1[lo]] + s1.subrange(lo + 1, hi));
    assert(s2.subrange(lo, hi) =~= seq![s2[lo]] + s2.subrange(lo + 1, hi));
    vstd::seq_lib::lemma_multiset_commutative(seq![s1[lo]], s1.subrange(lo + 1, hi));
    vstd::seq_lib::lemma_multiset_commutative(seq![s2[lo]], s2.subrange(lo + 1, hi));
}


/// Two sorted ranges holding the same multiset of values are equal.
pub(crate) proof fn lemma_sorted_range_unique(s1: Seq<usize>, s2: Seq<usize>, lo: int, hi: int)
    requires
        0 <= lo <= hi <= s1.len(),
        hi <= s2.len(),
        range_sorted(s1, lo, hi),
        range_sorted(s2, lo, hi),
        same_range_multiset(s1, s2, lo, hi),
    ensures
        s1.subrange(lo, hi) == s2.subrange(lo, hi),
{
    let r1 = s1.subrange(lo, hi);
    let r2 = s2.subrange(lo, hi);
    let leq = |a: usize, b: usize| a <= b;
    assert(vstd::relations::total_ordering(leq)) by {
        assert(vstd::relations::reflexive(leq)) by {
            assert forall|x: usize| #[trigger] leq(x, x) by {}
        }
        assert(vstd::relations::transitive(leq)) by {
            assert forall|x: usize, y: usize, z: usize|
                #[trigger] leq(x, y) && #[trigger] leq(y, z) implies leq(x, z) by {}
        }
        assert(vstd::relations::antisymmetric(leq)) by {
            assert forall|x: usize, y: usize|
                #[trigger] leq(x, y) && #[trigger] leq(y, x) implies x == y by {}
        }
        assert(vstd::relations::strongly_connected(leq)) by {
            assert forall|x: usize, y: usize| #[trigger] leq(x, y) || #[trigger] leq(y, x) by {}
        }
    }
    assert(vstd::relations::sorted_by(r1, leq)) by {
        assert forall|i: int, j: int| 0 <= i < j < r1.len() implies leq(r1[i], r1[j]) by {
            assert(s1[lo + i] < s1[lo + j]);
        }
    }
    assert(vstd::relations::sorted_by(r2, leq)) by {
        assert forall|i: int, j: int| 0 <= i < j < r2.len() implies leq(r2[i], r2[j]) by {
            assert(s2[lo + i] < s2[lo + j]);
        }
    }
    vstd::seq_lib::lemma_sorted_unique(r1, r2, leq);
}

} // verus!
