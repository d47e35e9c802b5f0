//! Semantic linking: which pairs of stored embeddings become "relatedMeaning" edges.
//!
//! Cosine scores and hyperplane projections are floating point and are computed by the
//! caller (as f32 bit patterns); this module decides the hash buckets, the candidate
//! pairs, the threshold, and adds the edges.
use vstd::prelude::*;
use crate::fbits::{ge, lemma_p2_monotone, p2, spec_ge};
use crate::graph_nexus::{link_all_model, pair_views, EdgeView, MemoryGraphNexus};
use crate::util::{filter_by_mask, mask_filter};
use crate::vector_index::SimpleVectorIndex;

verus! {

/// `0.0f32` as bits.
pub const ZERO_BITS: u32 = 0;

/// The bucket of a vector in one hash table, from its projections on the table's planes:
/// bit `b` is set when the projection on plane `b` is at least zero (IEEE comparison, so
/// a NaN projection leaves its bit clear).
pub open spec fn spec_sign_hash(dots: Seq<u32>) -> nat
    decreases dots.len(),
{
    if dots.len() == 0 {
        0
    } else {
        spec_sign_hash(dots.drop_last()) + if spec_ge(dots.last(), ZERO_BITS) {
            p2((dots.len() - 1) as nat)
        } else {
            0
        }
    }
}

/// The bucket of a vector given its projections on at most 63 planes.
pub fn sign_hash(dots: &[u32]) -> (h: u64)
    requires
        dots@.len() <= 63,
    ensures
        h == spec_sign_hash(dots@),
{
    let mut h: u64 = 0;
    let mut bit: u64 = 1;
    let mut b: usize = 0;
    proof {
        assert(dots@.subrange(0, 0) =~= Seq::<u32>::empty());
        crate::fbits::lemma_p2_constants();
    }
    while b < dots.len()
        invariant
            b <= dots@.len() <= 63,
            bit == p2(b as nat),
            h == spec_sign_hash(dots@.subrange(0, b as int)),
            h < bit,
            p2(64) == 0x1_0000_0000_0000_0000,
        decreases dots@.len() - b,
    {
        proof {
            lemma_p2_monotone((b + 1) as nat, 64);
            assert(p2((b + 1) as nat) == 2 * p2(b as nat));
            assert(dots@.subrange(0, b + 1).drop_last() =~= dots@.subrange(0, b as int));
        }
        if ge(dots[b], ZERO_BITS) {
            h = h + bit;
        }
        bit = bit * 2;
        b = b + 1;
    }
    proof {
        assert(dots@.subrange(0, dots@.len() as int) =~= dots@);
    }
    h
}

/// The shape of multi-table hashing over `n_entries` vectors: `None` when there is nothing
/// to link; otherwise the number of planes per table, capped at 63 so that a bucket fits
/// in a `u64`, and the number of tables, at least one.
pub fn lsh_plan(n_entries: usize, n_planes: usize, n_tables: usize) -> (r: Option<(usize, usize)>)
    ensures
        n_entries == 0 ==> r is None,
        n_entries > 0 ==> r == Some((
            if n_planes < 63 { n_planes } else { 63usize },
            if n_tables > 1 { n_tables } else { 1usize },
        )),
{
    if n_entries == 0 {
        return None;
    }
    let planes = if n_planes < 63 { n_planes } else { 63 };
    let tables = if n_tables > 1 { n_tables } else { 1 };
    Some((planes, tables))
}

/// The bucket tables as plain sequences.
pub open spec fn table_views(hashes: Seq<Vec<u64>>) -> Seq<Seq<u64>> {
    hashes.map_values(|v: Vec<u64>| v@)
}

/// Positions `i` and `j` fall in the same bucket of some table.
pub open spec fn shares_bucket(tables: Seq<Seq<u64>>, i: int, j: int) -> bool {
    exists|t: int| 0 <= t < tables.len() && #[trigger] tables[t][i] == tables[t][j]
}

/// Lexicographic order of position pairs.
pub open spec fn pair_lt(a: (usize, usize), b: (usize, usize)) -> bool {
    a.0 < b.0 || (a.0 == b.0 && a.1 < b.1)
}

/// `r` lists, in increasing order, exactly the pairs `i < j < n` for which `p` holds.
pub open spec fn lists_pairs(r: Seq<(usize, usize)>, n: nat, p: spec_fn(int, int) -> bool) -> bool {
    &&& forall|k: int| 0 <= k < r.len() ==> (#[trigger] r[k]).0 < r[k].1 < n && p(r[k].0 as int, r[k].1 as int)
    &&& forall|i: int, j: int| 0 <= i < j < n && #[trigger] p(i, j) ==> exists|k: int| 0 <= k < r.len() && r[k] == (i as usize, j as usize)
    &&& forall|k: int, l: int| 0 <= k < l < r.len() ==> pair_lt(#[trigger] r[k], #[trigger] r[l])
}

/// Positions `i` and `j` fall in the same bucket of one of the first `t` tables.
pub open spec fn shares_upto(tables: Seq<Seq<u64>>, t: int, i: int, j: int) -> bool {
    exists|u: int| 0 <= u < t && #[trigger] tables[u][i] == tables[u][j]
}

/// Strictly increasing positions.
pub open spec fn increasing(s: Seq<usize>) -> bool {
    forall|a: int, b: int| 0 <= a < b < s.len() ==> #[trigger] s[a] < #[trigger] s[b]
}

/// Bucket order of positions: lower bucket first, ties by position.
pub open spec fn bucket_before(h: Seq<u64>, a: int, b: int) -> bool {
    h[a] < h[b] || (h[a] == h[b] && a < b)
}

/// `order` lists every position of `h` once, in bucket order.
pub open spec fn bucket_ordered(h: Seq<u64>, order: Seq<usize>) -> bool {
    &&& order.len() == h.len()
    &&& forall|q: int| 0 <= q < order.len() ==> #[trigger] order[q] < h.len()
    &&& forall|v: usize| v < h.len() ==> order.contains(v)
    &&& forall|p: int, q: int| 0 <= p < q < order.len() ==> bucket_before(h, #[trigger] order[p] as int, #[trigger] order[q] as int)
}

/// The positions of one table in bucket order.
fn bucket_order(h: &Vec<u64>) -> (order: Vec<usize>)
    ensures
        bucket_ordered(h@, order@),
{
    let n = h.len();
    let mut neg: Vec<i128> = Vec::new();
    let mut k: usize = 0;
    while k < n
        invariant
            n == h@.len(),
            k <= n,
            neg@.len() == k,
            forall|j: int| 0 <= j < k ==> #[trigger] neg@[j] == -(h@[j] as int),
        decreases n - k,
    {
        neg.push(0 - (h[k] as i128));
        k = k + 1;
    }
    let order = crate::graph_nexus::prune_order(&neg, 0, n);
    proof {
        assert forall|p: int, q: int| 0 <= p < q < order@.len() implies bucket_before(h@, #[trigger] order@[p] as int, #[trigger] order@[q] as int) by {
            assert(crate::graph_nexus::ranks_before(neg@, order@[p] as int, order@[q] as int));
        }
    }
    order
}

/// Where each position stands in `order`.
fn positions(h: &Vec<u64>, order: &Vec<usize>) -> (pos: Vec<usize>)
    requires
        bucket_ordered(h@, order@),
    ensures
        pos@.len() == h@.len(),
        forall|v: int| 0 <= v < h@.len() ==> #[trigger] pos@[v] < h@.len() && order@[pos@[v] as int] == v,
{
    let n = h.len();
    let mut pos: Vec<usize> = Vec::new();
    let mut k: usize = 0;
    while k < n
        invariant
            n == h@.len(),
            k <= n,
            pos@.len() == k,
            forall|j: int| 0 <= j < k ==> #[trigger] pos@[j] == 0,
        decreases n - k,
    {
        pos.push(0);
        k = k + 1;
    }
    let mut q: usize = 0;
    while q < n
        invariant
            n == h@.len(),
            bucket_ordered(h@, order@),
            q <= n,
            pos@.len() == n,
            forall|j: int| 0 <= j < q ==> #[trigger] pos@[order@[j] as int] == j,
        decreases n - q,
    {
        let v = order[q];
        let ghost before = pos@;
        pos.set(v, q);
        proof {
            assert forall|j: int| 0 <= j < q + 1 implies #[trigger] pos@[order@[j] as int] == j by {
                if j < q {
                    assert(bucket_before(h@, order@[j] as int, order@[q as int] as int));
                    assert(order@[j] != v);
                    assert(pos@[order@[j] as int] == before[order@[j] as int]);
                }
            }
        }
        q = q + 1;
    }
    proof {
        assert forall|v: int| 0 <= v < n implies #[trigger] pos@[v] < n && order@[pos@[v] as int] == v by {
            assert(order@.contains(v as usize));
            let j = choose|j: int| 0 <= j < order@.len() && order@[j] == v as usize;
            assert(pos@[order@[j] as int] == j);
        }
    }
    pos
}

/// For each place `q` of `order`, the end of the run of equal buckets that holds it.
fn run_ends(h: &Vec<u64>, order: &Vec<usize>) -> (e: Vec<usize>)
    requires
        bucket_ordered(h@, order@),
    ensures
        e@.len() == h@.len(),
        forall|q: int|
            0 <= q < h@.len() ==> {
                &&& q < #[trigger] e@[q] <= h@.len()
                &&& (e@[q] == h@.len() || h@[order@[e@[q] as int] as int] != h@[order@[q] as int])
                &&& forall|r: int| q <= r < e@[q] ==> #[trigger] h@[order@[r] as int] == h@[order@[q] as int]
            },
{
    let n = h.len();
    let mut e: Vec<usize> = Vec::new();
    let mut k: usize = 0;
    while k < n
        invariant
            n == h@.len(),
            k <= n,
            e@.len() == k,
        decreases n - k,
    {
        e.push(0);
        k = k + 1;
    }
    let mut q: usize = n;
    while q > 0
        invariant
            n == h@.len(),
            bucket_ordered(h@, order@),
            q <= n,
            e@.len() == n,
            forall|p: int|
                q <= p < n ==> {
                    &&& p < #[trigger] e@[p] <= n
                    &&& (e@[p] == n || h@[order@[e@[p] as int] as int] != h@[order@[p] as int])
                    &&& forall|r: int| p <= r < e@[p] ==> #[trigger] h@[order@[r] as int] == h@[order@[p] as int]
                },
        decreases q,
    {
        q = q - 1;
        let v = if q + 1 < n && h[order[q + 1]] == h[order[q]] {
            e[q + 1]
        } else {
            q + 1
        };
        let ghost before = e@;
        e.set(q, v);
        proof {
            assert forall|p: int| q <= p < n implies {
                &&& p < #[trigger] e@[p] <= n
                &&& (e@[p] == n || h@[order@[e@[p] as int] as int] != h@[order@[p] as int])
                &&& forall|r: int| p <= r < e@[p] ==> #[trigger] h@[order@[r] as int] == h@[order@[p] as int]
            } by {
                if p > q {
                    assert(e@[p] == before[p]);
                } else if q + 1 < n && h@[order@[q + 1] as int] == h@[order@[q as int] as int] {
                    assert(e@[p] == before[q + 1]);
                    assert forall|r: int| p <= r < e@[p] implies #[trigger] h@[order@[r] as int] == h@[order@[p] as int] by {
                        if r > q {
                            assert(h@[order@[r] as int] == h@[order@[q + 1] as int]);
                        }
                    }
                }
            }
        }
    }
    e
}

/// The positions after `i` in its bucket of one table, increasing.
fn partners(h: &Vec<u64>, order: &Vec<usize>, pos: &Vec<usize>, ends: &Vec<usize>, i: usize) -> (l: Vec<usize>)
    requires
        bucket_ordered(h@, order@),
        i < h@.len(),
        pos@.len() == h@.len(),
        forall|v: int| 0 <= v < h@.len() ==> #[trigger] pos@[v] < h@.len() && order@[pos@[v] as int] == v,
        ends@.len() == h@.len(),
        forall|q: int|
            0 <= q < h@.len() ==> {
                &&& q < #[trigger] ends@[q] <= h@.len()
                &&& (ends@[q] == h@.len() || h@[order@[ends@[q] as int] as int] != h@[order@[q] as int])
                &&& forall|r: int| q <= r < ends@[q] ==> #[trigger] h@[order@[r] as int] == h@[order@[q] as int]
            },
    ensures
        increasing(l@),
        forall|j: usize| l@.contains(j) <==> (i < j < h@.len() && h@[j as int] == h@[i as int]),
{
    let n = h.len();
    let q = pos[i];
    let e = ends[q];
    let ghost hq = h@[i as int];
    assert(order@[q as int] == i);
    let mut l: Vec<usize> = Vec::new();
    let mut k: usize = q + 1;
    while k < e
        invariant
            n == h@.len(),
            bucket_ordered(h@, order@),
            q < n,
            order@[q as int] == i,
            q < e <= n,
            q + 1 <= k <= e,
            forall|r: int| q <= r < e ==> #[trigger] h@[order@[r] as int] == h@[order@[q as int] as int],
            l@ == order@.subrange(q + 1, k as int),
        decreases e - k,
    {
        l.push(order[k]);
        proof {
            assert(order@.subrange(q + 1, k + 1) =~= order@.subrange(q + 1, k as int).push(order@[k as int]));
        }
        k = k + 1;
    }
    proof {
        assert forall|a: int, b: int| 0 <= a < b < l@.len() implies #[trigger] l@[a] < #[trigger] l@[b] by {
            let qa = q + 1 + a;
            let qb = q + 1 + b;
            assert(l@[a] == order@[qa] && l@[b] == order@[qb]);
            assert(h@[order@[qa] as int] == h@[order@[qb] as int]);
            assert(bucket_before(h@, order@[qa] as int, order@[qb] as int));
        }
        assert forall|j: usize| l@.contains(j) <==> (i < j < n && h@[j as int] == h@[i as int]) by {
            if l@.contains(j) {
                let a = choose|a: int| 0 <= a < l@.len() && l@[a] == j;
                let qa = q + 1 + a;
                assert(order@[qa] == j);
                assert(h@[order@[qa] as int] == h@[order@[q as int] as int]);
                assert(bucket_before(h@, order@[q as int] as int, order@[qa] as int));
            }
            if i < j < n && h@[j as int] == h@[i as int] {
                assert(order@.contains(j));
                let qj = choose|qj: int| 0 <= qj < order@.len() && order@[qj] == j;
                if qj < q {
                    assert(bucket_before(h@, order@[qj] as int, order@[q as int] as int));
                }
                assert(qj != q);
                if qj >= e {
                    assert(e < n);
                    if qj > e {
                        assert(bucket_before(h@, order@[e as int] as int, order@[qj] as int));
                    }
                    assert(bucket_before(h@, order@[q as int] as int, order@[e as int] as int));
                    assert(false);
                }
                assert(l@[qj - q - 1] == j);
            }
        }
    }
    l
}

/// The union of two increasing position lists, increasing.
fn union_increasing(a: &Vec<usize>, b: &Vec<usize>) -> (r: Vec<usize>)
    requires
        increasing(a@),
        increasing(b@),
    ensures
        increasing(r@),
        forall|v: usize| r@.contains(v) <==> (a@.contains(v) || b@.contains(v)),
{
    let mut r: Vec<usize> = Vec::new();
    let mut i: usize = 0;
    let mut j: usize = 0;
    while i < a.len() || j < b.len()
        invariant
            increasing(a@),
            increasing(b@),
            i <= a@.len(),
            j <= b@.len(),
            increasing(r@),
            forall|v: usize| r@.contains(v) <==> (a@.subrange(0, i as int).contains(v) || b@.subrange(0, j as int).contains(v)),
            forall|p: int, x: int| 0 <= p < r@.len() && i <= x < a@.len() ==> #[trigger] r@[p] < #[trigger] a@[x],
            forall|p: int, y: int| 0 <= p < r@.len() && j <= y < b@.len() ==> #[trigger] r@[p] < #[trigger] b@[y],
        decreases a@.len() + b@.len() - i - j,
    {
        let ghost old_r = r@;
        let ghost sa0 = a@.subrange(0, i as int);
        let ghost sb0 = b@.subrange(0, j as int);
        let take_a = i < a.len() && (j >= b.len() || a[i] <= b[j]);
        let take_b = j < b.len() && (i >= a.len() || b[j] <= a[i]);
        let v = if take_a { a[i] } else { b[j] };
        r.push(v);
        if take_a {
            i = i + 1;
        }
        if take_b {
            j = j + 1;
        }
        proof {
            let sa1 = a@.subrange(0, i as int);
            let sb1 = b@.subrange(0, j as int);
            assert forall|x: int, y: int| 0 <= x < y < r@.len() implies #[trigger] r@[x] < #[trigger] r@[y] by {
                if y < old_r.len() {
                    assert(r@[x] == old_r[x] && r@[y] == old_r[y]);
                } else {
                    assert(r@[x] == old_r[x]);
                }
            }
            assert forall|w: usize| r@.contains(w) <==> (sa1.contains(w) || sb1.contains(w)) by {
                if r@.contains(w) {
                    let k = choose|k: int| 0 <= k < r@.len() && r@[k] == w;
                    if k < old_r.len() {
                        assert(old_r[k] == w);
                        assert(old_r.contains(w));
                        if sa0.contains(w) {
                            let z = choose|z: int| 0 <= z < sa0.len() && sa0[z] == w;
                            assert(sa1[z] == w);
                        }
                        if sb0.contains(w) {
                            let z = choose|z: int| 0 <= z < sb0.len() && sb0[z] == w;
                            assert(sb1[z] == w);
                        }
                    } else if take_a {
                        assert(sa1[sa1.len() - 1] == w);
                    } else {
                        assert(sb1[sb1.len() - 1] == w);
                    }
                }
                if sa1.contains(w) || sb1.contains(w) {
                    if sa1.contains(w) {
                        let z = choose|z: int| 0 <= z < sa1.len() && sa1[z] == w;
                        if z < sa0.len() {
                            assert(sa0[z] == w);
                            assert(old_r.contains(w));
                        } else {
                            assert(w == v);
                        }
                    } else {
                        let z = choose|z: int| 0 <= z < sb1.len() && sb1[z] == w;
                        if z < sb0.len() {
                            assert(sb0[z] == w);
                            assert(old_r.contains(w));
                        } else {
                            assert(w == v);
                        }
                    }
                    if old_r.contains(w) {
                        let k = choose|k: int| 0 <= k < old_r.len() && old_r[k] == w;
                        assert(r@[k] == w);
                    } else {
                        assert(r@[old_r.len() as int] == w);
                    }
                }
            }
            assert forall|p: int, x: int| 0 <= p < r@.len() && i <= x < a@.len() implies #[trigger] r@[p] < #[trigger] a@[x] by {
                if p < old_r.len() {
                    assert(r@[p] == old_r[p]);
                } else if take_a {
                    assert(a@[i - 1] < a@[x]);
                } else {
                    assert(a@[i as int] <= a@[x]);
                }
            }
            assert forall|p: int, y: int| 0 <= p < r@.len() && j <= y < b@.len() implies #[trigger] r@[p] < #[trigger] b@[y] by {
                if p < old_r.len() {
                    assert(r@[p] == old_r[p]);
                } else if take_b {
                    assert(b@[j - 1] < b@[y]);
                } else {
                    assert(b@[j as int] <= b@[y]);
                }
            }
        }
    }
    proof {
        assert(a@.subrange(0, i as int) =~= a@);
        assert(b@.subrange(0, j as int) =~= b@);
    }
    r
}

/// The candidate pairs of multi-table locality-sensitive hashing: every pair of positions
/// `i < j < n` that shares a bucket in at least one table, each once, in increasing order.
/// `hashes[t][i]` is the bucket of position `i` in table `t`. Each table is bucketed by
/// sorting its positions by bucket, so only positions that share a bucket are paired.
pub fn lsh_candidate_pairs(hashes: &Vec<Vec<u64>>, n: usize) -> (r: Vec<(usize, usize)>)
    requires
        forall|t: int| 0 <= t < hashes@.len() ==> (#[trigger] hashes@[t])@.len() == n,
    ensures
        lists_pairs(r@, n as nat, |i: int, j: int| shares_bucket(table_views(hashes@), i, j)),
{
    let ghost tv = table_views(hashes@);
    let mut lists: Vec<Vec<usize>> = Vec::new();
    let mut k: usize = 0;
    while k < n
        invariant
            k <= n,
            lists@.len() == k,
            forall|x: int| 0 <= x < k ==> (#[trigger] lists@[x])@ == Seq::<usize>::empty(),
        decreases n - k,
    {
        lists.push(Vec::new());
        k = k + 1;
    }
    let mut t: usize = 0;
    while t < hashes.len()
        invariant
            tv == table_views(hashes@),
            forall|u: int| 0 <= u < hashes@.len() ==> (#[trigger] hashes@[u])@.len() == n,
            t <= hashes@.len(),
            lists@.len() == n,
            forall|x: int|
                0 <= x < n ==> {
                    &&& increasing((#[trigger] lists@[x])@)
                    &&& forall|j: usize| #[trigger] lists@[x]@.contains(j) <==> (x < j < n && shares_upto(tv, t as int, x, j as int))
                },
        decreases hashes@.len() - t,
    {
        let h = &hashes[t];
        assert(h@ == tv[t as int]);
        let order = bucket_order(h);
        let pos = positions(h, &order);
        let ends = run_ends(h, &order);
        let mut i: usize = 0;
        assert forall|x: int| 0 <= x < n implies {
            &&& increasing((#[trigger] lists@[x])@)
            &&& forall|j: usize|
                #[trigger] lists@[x]@.contains(j) <==> (x < j < n && shares_upto(tv, if x < i { t + 1 } else { t as int }, x, j as int))
        } by {
            assert forall|j: usize|
                #[trigger] lists@[x]@.contains(j) <==> (x < j < n && shares_upto(tv, if x < i { t + 1 } else { t as int }, x, j as int)) by {
                assert(lists@[x]@.contains(j) <==> (x < j < n && shares_upto(tv, t as int, x, j as int)));
            }
        }
        while i < n
            invariant
                tv == table_views(hashes@),
                t < hashes@.len(),
                h@ == tv[t as int],
                h@.len() == n,
                bucket_ordered(h@, order@),
                pos@.len() == n,
                forall|v: int| 0 <= v < n ==> #[trigger] pos@[v] < n && order@[pos@[v] as int] == v,
                ends@.len() == n,
                forall|q: int|
                    0 <= q < n ==> {
                        &&& q < #[trigger] ends@[q] <= n
                        &&& (ends@[q] == n || h@[order@[ends@[q] as int] as int] != h@[order@[q] as int])
                        &&& forall|r: int| q <= r < ends@[q] ==> #[trigger] h@[order@[r] as int] == h@[order@[q] as int]
                    },
                i <= n,
                lists@.len() == n,
                forall|x: int|
                    0 <= x < n ==> {
                        &&& increasing((#[trigger] lists@[x])@)
                        &&& forall|j: usize|
                            #[trigger] lists@[x]@.contains(j) <==> (x < j < n && shares_upto(tv, if x < i { t + 1 } else { t as int }, x, j as int))
                    },
            decreases n - i,
        {
            let part = partners(h, &order, &pos, &ends, i);
            let merged = union_increasing(&lists[i], &part);
            let ghost before = lists@;
            lists.set(i, merged);
            proof {
                assert forall|x: int| 0 <= x < n implies {
                    &&& increasing((#[trigger] lists@[x])@)
                    &&& forall|j: usize|
                        #[trigger] lists@[x]@.contains(j) <==> (x < j < n && shares_upto(tv, if x < i + 1 { t + 1 } else { t as int }, x, j as int))
                } by {
                    if x != i {
                        assert(lists@[x] == before[x]);
                    } else {
                        assert forall|j: usize|
                            #[trigger] lists@[x]@.contains(j) <==> (x < j < n && shares_upto(tv, t + 1, x, j as int)) by {
                            if x < j < n && shares_upto(tv, t + 1, x, j as int) {
                                let u = choose|u: int| 0 <= u < t + 1 && #[trigger] tv[u][x] == tv[u][j as int];
                                if u < t {
                                    assert(shares_upto(tv, t as int, x, j as int));
                                }
                            }
                            if x < j < n && shares_upto(tv, t as int, x, j as int) {
                                let u = choose|u: int| 0 <= u < t && #[trigger] tv[u][x] == tv[u][j as int];
                                assert(tv[u][x] == tv[u][j as int]);
                            }
                            if x < j < n && h@[j as int] == h@[x] {
                                assert(tv[t as int][x] == tv[t as int][j as int]);
                            }
                        }
                    }
                }
            }
            i = i + 1;
        }
        t = t + 1;
    }
    let ghost p = |i: int, j: int| shares_bucket(tv, i, j);
    proof {
        assert forall|x: int, j: int| 0 <= x < n && 0 <= j < n implies shares_upto(tv, hashes@.len() as int, x, j) == p(x, j) by {
            if shares_bucket(tv, x, j) {
                let u = choose|u: int| 0 <= u < tv.len() && #[trigger] tv[u][x] == tv[u][j];
                assert(tv[u][x] == tv[u][j]);
            }
            if shares_upto(tv, hashes@.len() as int, x, j) {
                let u = choose|u: int| 0 <= u < hashes@.len() && #[trigger] tv[u][x] == tv[u][j];
                assert(tv[u][x] == tv[u][j]);
            }
        }
        assert forall|x: int| 0 <= x < n implies {
            &&& increasing((#[trigger] lists@[x])@)
            &&& forall|j: usize| #[trigger] lists@[x]@.contains(j) <==> (x < j < n && p(x, j as int))
        } by {
            assert forall|j: usize| #[trigger] lists@[x]@.contains(j) <==> (x < j < n && p(x, j as int)) by {
                assert(lists@[x]@.contains(j) <==> (x < j < n && shares_upto(tv, hashes@.len() as int, x, j as int)));
                if j < n {
                    assert(shares_upto(tv, hashes@.len() as int, x, j as int) == p(x, j as int));
                }
            }
        }
    }
    let mut r: Vec<(usize, usize)> = Vec::new();
    let mut i: usize = 0;
    while i < n
        invariant
            i <= n,
            lists@.len() == n,
            p == (|i: int, j: int| shares_bucket(tv, i, j)),
            forall|x: int|
                0 <= x < n ==> {
                    &&& increasing((#[trigger] lists@[x])@)
                    &&& forall|j: usize| #[trigger] lists@[x]@.contains(j) <==> (x < j < n && p(x, j as int))
                },
            forall|k: int| 0 <= k < r@.len() ==> (#[trigger] r@[k]).0 < i && r@[k].0 < r@[k].1 < n && p(r@[k].0 as int, r@[k].1 as int),
            forall|a: int, b: int| 0 <= a < i && a < b < n && #[trigger] p(a, b) ==> exists|k: int| 0 <= k < r@.len() && r@[k] == (a as usize, b as usize),
            forall|k: int, l: int| 0 <= k < l < r@.len() ==> pair_lt(#[trigger] r@[k], #[trigger] r@[l]),
        decreases n - i,
    {
        let li = &lists[i];
        let mut q: usize = 0;
        while q < li.len()
            invariant
                i < n,
                lists@.len() == n,
                li@ == lists@[i as int]@,
                p == (|i: int, j: int| shares_bucket(tv, i, j)),
                increasing(li@),
                forall|j: usize| #[trigger] li@.contains(j) <==> (i < j < n && p(i as int, j as int)),
                q <= li@.len(),
                forall|k: int|
                    0 <= k < r@.len() ==> {
                        &&& (#[trigger] r@[k]).0 < r@[k].1 < n
                        &&& p(r@[k].0 as int, r@[k].1 as int)
                        &&& (r@[k].0 < i || (r@[k].0 == i && q > 0 && r@[k].1 <= li@[q - 1]))
                    },
                forall|a: int, b: int|
                    0 <= a < i && a < b < n && #[trigger] p(a, b) ==> exists|k: int| 0 <= k < r@.len() && r@[k] == (a as usize, b as usize),
                forall|z: int| 0 <= z < q ==> exists|k: int| 0 <= k < r@.len() && r@[k] == (i, #[trigger] li@[z]),
                forall|k: int, l: int| 0 <= k < l < r@.len() ==> pair_lt(#[trigger] r@[k], #[trigger] r@[l]),
            decreases li@.len() - q,
        {
            let j = li[q];
            assert(li@.contains(j));
            let ghost old_r = r@;
            r.push((i, j));
            proof {
                assert forall|k: int, l: int| 0 <= k < l < r@.len() implies pair_lt(#[trigger] r@[k], #[trigger] r@[l]) by {
                    if l < old_r.len() {
                        assert(r@[k] == old_r[k] && r@[l] == old_r[l]);
                    } else {
                        assert(r@[k] == old_r[k]);
                        if old_r[k].0 == i {
                            assert(li@[q - 1] < li@[q as int]);
                        }
                    }
                }
                assert forall|z: int| 0 <= z < q + 1 implies exists|k: int| 0 <= k < r@.len() && r@[k] == (i, #[trigger] li@[z]) by {
                    if z < q {
                        let k = choose|k: int| 0 <= k < old_r.len() && old_r[k] == (i, li@[z]);
                        assert(r@[k] == old_r[k]);
                    } else {
                        assert(r@[old_r.len() as int] == (i, li@[z]));
                    }
                }
                assert forall|a: int, b: int|
                    0 <= a < i && a < b < n && #[trigger] p(a, b) implies exists|k: int| 0 <= k < r@.len() && r@[k] == (a as usize, b as usize) by {
                    let k = choose|k: int| 0 <= k < old_r.len() && old_r[k] == (a as usize, b as usize);
                    assert(r@[k] == old_r[k]);
                }
                assert forall|k: int| 0 <= k < r@.len() implies {
                    &&& (#[trigger] r@[k]).0 < r@[k].1 < n
                    &&& p(r@[k].0 as int, r@[k].1 as int)
                    &&& (r@[k].0 < i || (r@[k].0 == i && q + 1 > 0 && r@[k].1 <= li@[q as int]))
                } by {
                    if k < old_r.len() {
                        assert(r@[k] == old_r[k]);
                        if old_r[k].0 == i {
                            assert(li@[q - 1] < li@[q as int]);
                        }
                    }
                }
            }
            q = q + 1;
        }
        proof {
            assert forall|a: int, b: int|
                0 <= a < i + 1 && a < b < n && #[trigger] p(a, b) implies exists|k: int| 0 <= k < r@.len() && r@[k] == (a as usize, b as usize) by {
                if a == i {
                    assert(li@.contains(b as usize));
                    let z = choose|z: int| 0 <= z < li@.len() && li@[z] == b as usize;
                    let k = choose|k: int| 0 <= k < r@.len() && r@[k] == (i, #[trigger] li@[z]);
                }
            }
        }
        i = i + 1;
    }
    r
}

/// Every pair of positions `i < j < n`, in increasing order: the candidates of exact
/// all-pairs linking.
pub fn all_pairs(n: usize) -> (r: Vec<(usize, usize)>)
    ensures
        lists_pairs(r@, n as nat, |i: int, j: int| true),
{
    let ghost p = |i: int, j: int| true;
    let mut r: Vec<(usize, usize)> = Vec::new();
    let mut i: usize = 0;
    while i < n
        invariant
            i <= n,
            p == (|i: int, j: int| true),
            forall|k: int| 0 <= k < r@.len() ==> (#[trigger] r@[k]).0 < i && r@[k].0 < r@[k].1 < n,
            forall|a: int, b: int| 0 <= a < i && a < b < n && #[trigger] p(a, b) ==> exists|k: int| 0 <= k < r@.len() && r@[k] == (a as usize, b as usize),
            forall|k: int, l: int| 0 <= k < l < r@.len() ==> pair_lt(#[trigger] r@[k], #[trigger] r@[l]),
        decreases n - i,
    {
        let mut j: usize = i + 1;
        while j < n
            invariant
                i < n,
                i + 1 <= j <= n,
                p == (|i: int, j: int| true),
                forall|k: int| 0 <= k < r@.len() ==> {
                    &&& (#[trigger] r@[k]).0 < r@[k].1 < n
                    &&& (r@[k].0 < i || (r@[k].0 == i && r@[k].1 < j))
                },
                forall|a: int, b: int|
                    ((0 <= a < i && a < b < n) || (a == i && a < b < j)) && #[trigger] p(a, b) ==> exists|k: int| 0 <= k < r@.len() && r@[k] == (a as usize, b as usize),
                forall|k: int, l: int| 0 <= k < l < r@.len() ==> pair_lt(#[trigger] r@[k], #[trigger] r@[l]),
            decreases n - j,
        {
            let ghost old_r = r@;
            r.push((i, j));
            proof {
                assert forall|a: int, b: int|
                    ((0 <= a < i && a < b < n) || (a == i && a < b < j + 1)) && #[trigger] p(a, b) implies exists|k: int| 0 <= k < r@.len() && r@[k] == (a as usize, b as usize) by {
                    if a == i && b == j {
                        assert(r@[old_r.len() as int] == (a as usize, b as usize));
                    } else {
                        let k = choose|k: int| 0 <= k < old_r.len() && old_r[k] == (a as usize, b as usize);
                        assert(r@[k] == old_r[k]);
                    }
                }
                assert forall|k: int, l: int| 0 <= k < l < r@.len() implies pair_lt(#[trigger] r@[k], #[trigger] r@[l]) by {
                    if l < old_r.len() {
                        assert(r@[k] == old_r[k] && r@[l] == old_r[l]);
                    } else {
                        assert(r@[k] == old_r[k]);
                    }
                }
            }
            j = j + 1;
        }
        i = i + 1;
    }
    r
}

/// The (id, id, score) triple of every pair whose score is at least `threshold`, in pair
/// order: `scores[k]` is the cosine (f32 bits) of pair `pairs[k]`.
pub open spec fn spec_scored_pairs(
    ids: Seq<Seq<char>>,
    pairs: Seq<(usize, usize)>,
    scores: Seq<u32>,
    threshold: u32,
) -> Seq<(Seq<char>, Seq<char>, u32)> {
    mask_filter(
        Seq::new(pairs.len(), |k: int| (ids[pairs[k].0 as int], ids[pairs[k].1 as int], scores[k])),
        Seq::new(pairs.len(), |k: int| spec_ge(scores[k], threshold)),
    )
}

/// The pairs to link, with their ids and scores.
pub fn scored_pairs(
    index: &SimpleVectorIndex,
    pairs: &Vec<(usize, usize)>,
    scores: &Vec<u32>,
    threshold: u32,
) -> (r: Vec<(String, String, u32)>)
    requires
        scores@.len() == pairs@.len(),
        forall|k: int| 0 <= k < pairs@.len() ==> (#[trigger] pairs@[k]).0 < index.spec_ids().len() && pairs@[k].1 < index.spec_ids().len(),
    ensures
        pair_views(r@) == spec_scored_pairs(index.spec_ids(), pairs@, scores@, threshold),
{
    let entries = index.entries();
    let ghost ids = index.spec_ids();
    proof {
        assert forall|x: int| 0 <= x < entries@.len() implies #[trigger] entries@[x].0@ == ids[x] by {
            assert(entries@.map_values(|e: (String, Vec<u32>)| (e.0@, e.1@))[x] == index.spec_entries()[x]);
        }
    }
    let mut all: Vec<(String, String, u32)> = Vec::new();
    let mut keep: Vec<bool> = Vec::new();
    let mut k: usize = 0;
    while k < pairs.len()
        invariant
            k <= pairs@.len(),
            scores@.len() == pairs@.len(),
            ids == index.spec_ids(),
            entries@.len() == ids.len(),
            forall|x: int| 0 <= x < entries@.len() ==> #[trigger] entries@[x].0@ == ids[x],
            forall|q: int| 0 <= q < pairs@.len() ==> (#[trigger] pairs@[q]).0 < ids.len() && pairs@[q].1 < ids.len(),
            pair_views(all@) == Seq::new(k as nat, |q: int| (ids[pairs@[q].0 as int], ids[pairs@[q].1 as int], scores@[q])),
            keep@ == Seq::new(k as nat, |q: int| spec_ge(scores@[q], threshold)),
        decreases pairs@.len() - k,
    {
        let (a, b) = pairs[k];
        let ghost old_all = pair_views(all@);
        let sa = entries[a].0.clone();
        let sb = entries[b].0.clone();
        assert(sa@ == ids[a as int] && sb@ == ids[b as int]);
        all.push((sa, sb, scores[k]));
        keep.push(ge(scores[k], threshold));
        proof {
            assert(pair_views(all@) =~= old_all.push((ids[a as int], ids[b as int], scores@[k as int])));
            assert(pair_views(all@) =~= Seq::new((k + 1) as nat, |q: int| (ids[pairs@[q].0 as int], ids[pairs@[q].1 as int], scores@[q])));
            assert(keep@ =~= Seq::new((k + 1) as nat, |q: int| spec_ge(scores@[q], threshold)));
        }
        k = k + 1;
    }
    let ghost all_v = all@;
    let r = filter_by_mask(all, &keep);
    proof {
        crate::util::lemma_mask_filter_map(all_v, keep@, |p: (String, String, u32)| (p.0@, p.1@, p.2));
    }
    r
}

impl MemoryGraphNexus {
    /// Links every pair whose cosine score is at least `threshold` with a "relatedMeaning"
    /// edge weighted by that score, in pair order (see [`spec_scored_pairs`]). `pairs` are
    /// positions in `index` ([`all_pairs`] for exact linking, [`lsh_candidate_pairs`] for
    /// the hashed variant) and `scores[k]` is the cosine of pair `k`. Returns the number of
    /// edges created.
    pub fn link_scored_pairs(
        &mut self,
        index: &SimpleVectorIndex,
        pairs: &Vec<(usize, usize)>,
        scores: &Vec<u32>,
        threshold: u32,
    ) -> (created: usize)
        requires
            old(self).wf(),
            scores@.len() == pairs@.len(),
            forall|k: int| 0 <= k < pairs@.len() ==> (#[trigger] pairs@[k]).0 < index.spec_ids().len() && pairs@[k].1 < index.spec_ids().len(),
        ensures
            final(self).wf(),
            (final(self).spec_edges(), final(self).spec_id_seed()) == link_all_model(
                old(self).spec_nodes(),
                old(self).spec_edges(),
                old(self).spec_id_seed(),
                spec_scored_pairs(index.spec_ids(), pairs@, scores@, threshold),
                "relatedMeaning"@,
            ),
            created == final(self).spec_edges().len() - old(self).spec_edges().len(),
            final(self).spec_nodes() == old(self).spec_nodes(),
            final(self).spec_clock() == old(self).spec_clock(),
            final(self).spec_topology() == old(self).spec_topology(),
            final(self).spec_hyperedges() == old(self).spec_hyperedges(),
    {
        let triples = scored_pairs(index, pairs, scores, threshold);
        self.link_pairs(&triples, "relatedMeaning")
    }
}

} // verus!
