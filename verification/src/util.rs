//! Small helpers on vectors and strings.
use vstd::prelude::*;

verus! {

/// A copy of a vector of flags.
pub fn copy_bools(v: &Vec<bool>) -> (r: Vec<bool>)
    ensures
        r@ == v@,
{
    let mut r: Vec<bool> = Vec::new();
    let mut i: usize = 0;
    while i < v.len()
        invariant
            i <= v@.len(),
            r@ == v@.subrange(0, i as int),
        decreases v@.len() - i,
    {
        r.push(v[i]);
        i = i + 1;
    }
    r
}

/// The elements of `s` whose flag in `keep` is set, in order.
pub open spec fn mask_filter<T>(s: Seq<T>, keep: Seq<bool>) -> Seq<T>
    decreases s.len(),
{
    if s.len() == 0 {
        Seq::empty()
    } else {
        let prev = mask_filter(s.drop_last(), keep.subrange(0, s.len() - 1));
        if keep[s.len() - 1] {
            prev.push(s.last())
        } else {
            prev
        }
    }
}

/// The positions that [`mask_filter`] keeps: increasing, flagged, and covering every
/// flagged position.
pub proof fn lemma_mask_filter_indices<T>(s: Seq<T>, keep: Seq<bool>) -> (idx: Seq<int>)
    requires
        keep.len() == s.len(),
    ensures
        idx.len() == mask_filter(s, keep).len(),
        forall|k: int| 0 <= k < idx.len() ==> 0 <= #[trigger] idx[k] < s.len() && keep[idx[k]]
            && mask_filter(s, keep)[k] == s[idx[k]],
        forall|k: int, l: int| 0 <= k < l < idx.len() ==> #[trigger] idx[k] < #[trigger] idx[l],
        forall|i: int| 0 <= i < s.len() && #[trigger] keep[i] ==> exists|k: int| 0 <= k < idx.len() && idx[k] == i,
    decreases s.len(),
{
    if s.len() == 0 {
        Seq::empty()
    } else {
        let n = s.len() - 1;
        let s1 = s.drop_last();
        let k1 = keep.subrange(0, n);
        let prev = lemma_mask_filter_indices(s1, k1);
        assert forall|i: int| 0 <= i < n implies #[trigger] s1[i] == s[i] && k1[i] == keep[i] by {}
        if keep[n] {
            let idx = prev.push(n);
            assert forall|i: int| 0 <= i < s.len() && #[trigger] keep[i] implies exists|k: int| 0 <= k < idx.len() && idx[k] == i by {
                if i < n {
                    assert(k1[i]);
                    let k = choose|k: int| 0 <= k < prev.len() && prev[k] == i;
                    assert(idx[k] == i);
                } else {
                    assert(idx[prev.len() as int] == i);
                }
            }
            idx
        } else {
            assert forall|i: int| 0 <= i < s.len() && #[trigger] keep[i] implies exists|k: int| 0 <= k < prev.len() && prev[k] == i by {
                assert(k1[i]);
            }
            prev
        }
    }
}

/// Number of set flags.
pub open spec fn count_true(s: Seq<bool>) -> nat
    decreases s.len(),
{
    if s.len() == 0 {
        0
    } else {
        count_true(s.drop_last()) + if s.last() {
            1nat
        } else {
            0nat
        }
    }
}

/// Setting one clear flag adds one to the count.
pub proof fn lemma_count_true_set(s: Seq<bool>, b: int)
    requires
        0 <= b < s.len(),
        !s[b],
    ensures
        count_true(s.update(b, true)) == count_true(s) + 1,
    decreases s.len(),
{
    let t = s.update(b, true);
    if b < s.len() - 1 {
        assert(t.drop_last() =~= s.drop_last().update(b, true));
        lemma_count_true_set(s.drop_last(), b);
    } else {
        assert(t.drop_last() =~= s.drop_last());
    }
}

/// If every flag of `a` implies the flag of `b`, `a` counts no more than `b`.
pub proof fn lemma_count_true_mono(a: Seq<bool>, b: Seq<bool>)
    requires
        a.len() == b.len(),
        forall|i: int| 0 <= i < a.len() && #[trigger] a[i] ==> b[i],
    ensures
        count_true(a) <= count_true(b),
    decreases a.len(),
{
    if a.len() > 0 {
        lemma_count_true_mono(a.drop_last(), b.drop_last());
    }
}

/// A count equal to the length means every flag is set.
pub proof fn lemma_count_true_full(s: Seq<bool>)
    requires
        count_true(s) == s.len(),
    ensures
        forall|i: int| 0 <= i < s.len() ==> #[trigger] s[i],
    decreases s.len(),
{
    if s.len() > 0 {
        lemma_count_true_bound(s.drop_last());
        lemma_count_true_full(s.drop_last());
        assert forall|i: int| 0 <= i < s.len() implies #[trigger] s[i] by {
            if i < s.len() - 1 {
                assert(s.drop_last()[i] == s[i]);
            }
        }
    }
}

/// A count never exceeds the length.
pub proof fn lemma_count_true_bound(s: Seq<bool>)
    ensures
        count_true(s) <= s.len(),
    decreases s.len(),
{
    if s.len() > 0 {
        lemma_count_true_bound(s.drop_last());
    }
}

/// The flags of `keep` that are set, counted, are the length of the filtered sequence.
pub proof fn lemma_mask_filter_len<T>(s: Seq<T>, keep: Seq<bool>)
    requires
        keep.len() == s.len(),
    ensures
        mask_filter(s, keep).len() == count_true(keep),
    decreases s.len(),
{
    if s.len() > 0 {
        let k1 = keep.subrange(0, s.len() - 1);
        assert(k1 =~= keep.drop_last());
        lemma_mask_filter_len(s.drop_last(), k1);
    }
}

/// Filtering commutes with mapping.
pub proof fn lemma_mask_filter_map<A, B>(s: Seq<A>, keep: Seq<bool>, f: spec_fn(A) -> B)
    requires
        keep.len() == s.len(),
    ensures
        mask_filter(s.map_values(f), keep) == mask_filter(s, keep).map_values(f),
    decreases s.len(),
{
    if s.len() > 0 {
        let k1 = keep.subrange(0, s.len() - 1);
        assert(s.map_values(f).drop_last() =~= s.drop_last().map_values(f));
        lemma_mask_filter_map(s.drop_last(), k1, f);
        assert(mask_filter(s.map_values(f), keep) =~= mask_filter(s, keep).map_values(f));
    }
}

/// Flags and their negations count up to the length.
pub proof fn lemma_count_true_negation(s: Seq<bool>, t: Seq<bool>)
    requires
        s.len() == t.len(),
        forall|i: int| 0 <= i < s.len() ==> #[trigger] t[i] == !s[i],
    ensures
        count_true(s) + count_true(t) == s.len(),
    decreases s.len(),
{
    if s.len() > 0 {
        lemma_count_true_negation(s.drop_last(), t.drop_last());
    }
}

/// Keeping every element keeps the sequence.
pub proof fn lemma_mask_filter_all<T>(s: Seq<T>)
    ensures
        mask_filter(s, Seq::new(s.len(), |k: int| true)) == s,
    decreases s.len(),
{
    if s.len() > 0 {
        let all = Seq::new(s.len(), |k: int| true);
        assert(all.subrange(0, s.len() - 1) =~= Seq::new((s.len() - 1) as nat, |k: int| true));
        lemma_mask_filter_all(s.drop_last());
        assert(s.drop_last().push(s.last()) =~= s);
    }
}

/// No flag set counts zero.
pub proof fn lemma_count_false(n: nat)
    ensures
        count_true(Seq::new(n, |k: int| false)) == 0,
    decreases n,
{
    if n > 0 {
        assert(Seq::new(n, |k: int| false).drop_last() =~= Seq::new((n - 1) as nat, |k: int| false));
        lemma_count_false((n - 1) as nat);
    }
}

/// Keeps the elements whose flag is set, moving them (no copies).
pub fn filter_by_mask<T>(v: Vec<T>, keep: &Vec<bool>) -> (r: Vec<T>)
    requires
        keep@.len() == v@.len(),
    ensures
        r@ == mask_filter(v@, keep@),
{
    let ghost vs = v@;
    let n = v.len();
    assert(vs.len() <= usize::MAX);
    let mut r: Vec<T> = Vec::new();
    let mut i: usize = 0;
    for x in it: v.into_iter()
        invariant
            i == it.index(),
            i <= vs.len(),
            vs.len() <= usize::MAX,
            it.seq() == vs,
            keep@.len() == vs.len(),
            r@ == mask_filter(vs.subrange(0, i as int), keep@.subrange(0, i as int)),
    {
        proof {
            assert(vs.subrange(0, i + 1).drop_last() =~= vs.subrange(0, i as int));
            assert(keep@.subrange(0, i + 1).subrange(0, i as int) =~= keep@.subrange(0, i as int));
        }
        if keep[i] {
            r.push(x);
        }
        i = i + 1;
    }
    proof {
        assert(vs.subrange(0, vs.len() as int) =~= vs);
        assert(keep@.subrange(0, vs.len() as int) =~= keep@);
    }
    r
}

} // verus!
