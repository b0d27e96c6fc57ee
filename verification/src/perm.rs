use vstd::prelude::*;

verus! {

broadcast use vstd::seq_lib::group_to_multiset_ensures;

/// `v1` is `v0` with the entries in `[lo, hi)` rearranged among themselves.
pub open spec fn range_perm(v0: Seq<usize>, v1: Seq<usize>, lo: int, hi: int) -> bool {
    &&& 0 <= lo <= hi <= v0.len()
    &&& v1.len() == v0.len()
    &&& forall|k: int| 0 <= k < v0.len() && !(lo <= k < hi) ==> #[trigger] v1[k] == v0[k]
    &&& v1.subrange(lo, hi).to_multiset() == v0.subrange(lo, hi).to_multiset()
}

/// Every entry of `v` is below `n`.
pub open spec fn all_below(v: Seq<usize>, n: nat) -> bool {
    forall|k: int| 0 <= k < v.len() ==> (#[trigger] v[k]) < n
}

/// A range permutation is reflexive.
pub proof fn lemma_range_perm_refl(v: Seq<usize>, lo: int, hi: int)
    requires
        0 <= lo <= hi <= v.len(),
    ensures
        range_perm(v, v, lo, hi),
{
}

/// Range permutations compose.
pub proof fn lemma_range_perm_trans(a: Seq<usize>, b: Seq<usize>, c: Seq<usize>, lo: int, hi: int)
    requires
        range_perm(a, b, lo, hi),
        range_perm(b, c, lo, hi),
    ensures
        range_perm(a, c, lo, hi),
{
}

/// A permutation of a sub-range is a permutation of any range around it.
pub proof fn lemma_range_perm_widen(a: Seq<usize>, b: Seq<usize>, lo: int, hi: int, lo2: int, hi2: int)
    requires
        range_perm(a, b, lo, hi),
        0 <= lo2 <= lo,
        hi <= hi2 <= a.len(),
    ensures
        range_perm(a, b, lo2, hi2),
{
    broadcast use vstd::seq_lib::lemma_multiset_commutative;

    assert(a.subrange(lo2, hi2) =~= a.subrange(lo2, lo) + a.subrange(lo, hi) + a.subrange(hi, hi2));
    assert(b.subrange(lo2, hi2) =~= b.subrange(lo2, lo) + b.subrange(lo, hi) + b.subrange(hi, hi2));
    assert(a.subrange(lo2, lo) =~= b.subrange(lo2, lo));
    assert(a.subrange(hi, hi2) =~= b.subrange(hi, hi2));
}

/// Permutations of two adjacent ranges compose into one of their union.
pub proof fn lemma_range_perm_join(a: Seq<usize>, b: Seq<usize>, c: Seq<usize>, lo: int, mid: int, hi: int)
    requires
        range_perm(a, b, lo, mid),
        range_perm(b, c, mid, hi),
    ensures
        range_perm(a, c, lo, hi),
{
    lemma_range_perm_widen(a, b, lo, mid, lo, hi);
    lemma_range_perm_widen(b, c, mid, hi, lo, hi);
}

/// Swapping two entries inside a range permutes that range.
pub proof fn lemma_swap_range_perm(v: Seq<usize>, i: int, j: int, lo: int, hi: int)
    requires
        0 <= lo <= i < hi <= v.len(),
        lo <= j < hi,
    ensures
        range_perm(v, v.update(i, v[j]).update(j, v[i]), lo, hi),
{
    broadcast use vstd::seq_lib::to_multiset_update;
    broadcast use vstd::multiset::group_multiset_axioms;

    let w = v.update(i, v[j]).update(j, v[i]);
    let s = v.subrange(lo, hi);
    let s1 = s.update(i - lo, v[j]);
    let s2 = s1.update(j - lo, v[i]);
    assert(w.subrange(lo, hi) =~= s2);
    assert(s1.to_multiset() == s.to_multiset().insert(v[j]).remove(v[i]));
    assert(s2.to_multiset() == s1.to_multiset().insert(v[i]).remove(s1[j - lo]));
    if i == j {
        assert(s2 =~= s);
    } else {
        assert(s1[j - lo] == v[j]);
        assert(s.to_multiset().count(v[i]) > 0) by {
            assert(s[i - lo] == v[i]);
            assert(s.contains(v[i]));
        }
        assert(s2.to_multiset() =~= s.to_multiset());
    }
}

/// Every entry of a permuted range was an entry of that range before.
pub proof fn lemma_range_perm_from(a: Seq<usize>, b: Seq<usize>, lo: int, hi: int, k: int) -> (j: int)
    requires
        range_perm(a, b, lo, hi),
        lo <= k < hi,
    ensures
        lo <= j < hi,
        a[j] == b[k],
{
    let sb = b.subrange(lo, hi);
    let sa = a.subrange(lo, hi);
    assert(sb[k - lo] == b[k]);
    assert(sb.contains(b[k]));
    assert(sb.to_multiset().count(b[k]) > 0);
    assert(sa.contains(b[k]));
    let j = choose|j: int| 0 <= j < sa.len() && sa[j] == b[k];
    j + lo
}

/// Every entry of a range is still an entry of that range after it is permuted.
pub proof fn lemma_range_perm_to(a: Seq<usize>, b: Seq<usize>, lo: int, hi: int, k: int) -> (j: int)
    requires
        range_perm(a, b, lo, hi),
        lo <= k < hi,
    ensures
        lo <= j < hi,
        b[j] == a[k],
{
    let sb = b.subrange(lo, hi);
    let sa = a.subrange(lo, hi);
    assert(sa[k - lo] == a[k]);
    assert(sa.contains(a[k]));
    assert(sa.to_multiset().count(a[k]) > 0);
    assert(sb.contains(a[k]));
    let j = choose|j: int| 0 <= j < sb.len() && sb[j] == a[k];
    j + lo
}

/// A range permutation keeps the multiset of all entries.
pub proof fn lemma_range_perm_multiset(a: Seq<usize>, b: Seq<usize>, lo: int, hi: int)
    requires
        range_perm(a, b, lo, hi),
    ensures
        b.to_multiset() == a.to_multiset(),
{
    lemma_range_perm_widen(a, b, lo, hi, 0, a.len() as int);
    assert(a.subrange(0, a.len() as int) =~= a);
    assert(b.subrange(0, b.len() as int) =~= b);
}

/// A range permutation keeps entries below a bound and keeps the whole multiset.
pub proof fn lemma_range_perm_below(a: Seq<usize>, b: Seq<usize>, lo: int, hi: int, n: nat)
    requires
        range_perm(a, b, lo, hi),
        all_below(a, n),
    ensures
        all_below(b, n),
        b.to_multiset() == a.to_multiset(),
{
    assert forall|k: int| 0 <= k < b.len() implies (#[trigger] b[k]) < n by {
        if lo <= k < hi {
            let j = lemma_range_perm_from(a, b, lo, hi, k);
        }
    }
    lemma_range_perm_widen(a, b, lo, hi, 0, a.len() as int);
    assert(a.subrange(0, a.len() as int) =~= a);
    assert(b.subrange(0, b.len() as int) =~= b);
}

} // verus!
