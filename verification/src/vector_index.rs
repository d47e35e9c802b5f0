//! In-memory vector indexes: exact linear-scan top-k selection over stored embeddings.
//!
//! Embedding components and similarity scores are single-precision values carried as
//! their bit patterns. The similarity arithmetic (cosine) is floating point and is done
//! by the caller; this module stores vectors, checks dimensions and selects the top-k
//! results from the scores it is given.
use vstd::prelude::*;
use crate::fbits::{spec_ge, spec_gt, spec_is_nan, rank, ge, is_nan};
use crate::text::{concat_str, decimal, decimal_string};
use crate::util::{filter_by_mask, mask_filter};

verus! {

/// One hit: the node id and its score (an f32 as bits).
#[derive(Debug, Clone)]
pub struct VectorSearchResult {
    pub node_id: String,
    pub score: u32,
}

/// In the top-k order, position `a` comes before position `b`: higher score first, ties
/// in insertion order.
pub open spec fn ranks_ahead(scores: Seq<u32>, a: int, b: int) -> bool {
    spec_gt(scores[a], scores[b]) || (rank(scores[a]) == rank(scores[b]) && a < b)
}

/// No score is a NaN.
pub open spec fn no_nan(scores: Seq<u32>) -> bool {
    forall|i: int| 0 <= i < scores.len() ==> !spec_is_nan(#[trigger] scores[i])
}

/// `sel` lists the `min(k, n)` best positions of `scores`, best first.
pub open spec fn is_top_k(scores: Seq<u32>, k: nat, sel: Seq<int>) -> bool {
    &&& sel.len() == if k < scores.len() { k } else { scores.len() }
    &&& forall|q: int| 0 <= q < sel.len() ==> 0 <= #[trigger] sel[q] < scores.len()
    &&& forall|q: int, r: int| 0 <= q < r < sel.len() ==> ranks_ahead(scores, #[trigger] sel[q], #[trigger] sel[r])
    &&& forall|q: int, x: int|
        #![trigger sel[q], scores[x]]
        0 <= q < sel.len() && 0 <= x < scores.len() && !sel.contains(x) ==> ranks_ahead(scores, sel[q], x)
}

/// The message of a dimension mismatch.
pub open spec fn dimension_error(expected: usize, got: usize) -> Seq<char> {
    "Embedding dimension mismatch: expected "@ + decimal(expected as nat) + ", got "@ + decimal(got as nat)
}

/// "Embedding dimension mismatch: expected {expected}, got {got}".
pub fn dimension_error_message(expected: usize, got: usize) -> (s: String)
    ensures
        s@ == dimension_error(expected, got),
{
    let s = concat_str("Embedding dimension mismatch: expected ".to_owned(), decimal_string(expected).as_str());
    let s = concat_str(s, ", got ");
    concat_str(s, decimal_string(got).as_str())
}


/// Where the shortlist `best` takes a new score `s`, searching from `from`: before its first
/// entry that does not score at least `s`, or at its end. A NaN `s` is not exceeded by any
/// entry and goes first; a NaN entry is never at least `s`, so nothing passes it.
pub open spec fn insert_pos(scores: Seq<u32>, best: Seq<usize>, s: u32, from: nat) -> nat
    decreases best.len() - from,
{
    if from >= best.len() || !spec_ge(scores[best[from as int] as int], s) {
        from
    } else {
        insert_pos(scores, best, s, from + 1)
    }
}

/// The shortlist after offering it position `i`: inserted where it belongs if that is among
/// the first `k`, the shortlist then cut back to `k`.
pub open spec fn shortlist_step(scores: Seq<u32>, k: nat, best: Seq<usize>, i: int) -> Seq<usize> {
    let pos = insert_pos(scores, best, scores[i], 0);
    if pos < k {
        let ins = best.insert(pos as int, i as usize);
        if ins.len() > k { ins.drop_last() } else { ins }
    } else {
        best
    }
}

/// The shortlist of the first `i` positions, offered in order to an empty shortlist.
pub open spec fn shortlist(scores: Seq<u32>, k: nat, i: nat) -> Seq<usize>
    decreases i,
{
    if i == 0 {
        Seq::empty()
    } else {
        shortlist_step(scores, k, shortlist(scores, k, (i - 1) as nat), i - 1)
    }
}

/// Positions of the `k` best scores, best first (ties in position order): each position in
/// turn is offered to a shortlist kept best first (see [`shortlist`]). Without NaN scores
/// this is the top `k` (see [`is_top_k`]).
pub fn top_k_positions(scores: &Vec<u32>, k: usize) -> (sel: Vec<usize>)
    requires
        k > 0,
    ensures
        sel@ == shortlist(scores@, k as nat, scores@.len()),
        sel@.len() <= k,
        sel@.len() <= scores@.len(),
        forall|q: int| 0 <= q < sel@.len() ==> #[trigger] sel@[q] < scores@.len(),
        forall|q: int, r: int| 0 <= q < r < sel@.len() ==> #[trigger] sel@[q] != #[trigger] sel@[r],
        no_nan(scores@) ==> is_top_k(scores@, k as nat, sel@.map_values(|p: usize| p as int)),
{
    let n = scores.len();
    let mut best: Vec<usize> = Vec::new();
    let mut i: usize = 0;
    while i < n
        invariant
            n == scores@.len(),
            k > 0,
            i <= n,
            best@.len() <= k,
            best@.len() <= i,
            forall|q: int| 0 <= q < best@.len() ==> #[trigger] best@[q] < i,
            forall|q: int, r: int| 0 <= q < r < best@.len() ==> #[trigger] best@[q] != #[trigger] best@[r],
            no_nan(scores@) ==> is_top_k(scores@.subrange(0, i as int), k as nat, best@.map_values(|p: usize| p as int)),
            best@ == shortlist(scores@, k as nat, i as nat),
        decreases n - i,
    {
        let score = scores[i];
        // first position whose score is not >= the new one
        let mut pos: usize = 0;
        while pos < best.len() && ge(scores[best[pos]], score)
            invariant
                n == scores@.len(),
                i < n,
                score == scores@[i as int],
                pos <= best@.len(),
                forall|q: int| 0 <= q < best@.len() ==> #[trigger] best@[q] < i,
                forall|q: int| 0 <= q < pos ==> spec_ge(scores@[#[trigger] best@[q] as int], scores@[i as int]),
                insert_pos(scores@, best@, score, 0) == insert_pos(scores@, best@, score, pos as nat),
            decreases best@.len() - pos,
        {
            pos = pos + 1;
        }
        assert(insert_pos(scores@, best@, score, pos as nat) == pos);
        let ghost old_best = best@;
        if pos < k {
            best.insert(pos, i);
            if best.len() > k {
                best.pop();
            }
            proof {
                lemma_top_k_step(scores@, k as nat, i as int, pos as int, old_best, best@);
            }
        } else {
            proof {
                lemma_top_k_skip(scores@, k as nat, i as int, pos as int, old_best);
            }
        }
        i = i + 1;
    }
    proof {
        assert(scores@.subrange(0, n as int) =~= scores@);
    }
    best
}

/// Inserting position `i` where the shortlist stops scoring at least as high keeps the
/// shortlist the top of the prefix.
pub proof fn lemma_top_k_step(scores: Seq<u32>, k: nat, i: int, pos: int, old_best: Seq<usize>, new_best: Seq<usize>)
    requires
        k > 0,
        0 <= i < scores.len(),
        scores.len() <= usize::MAX,
        0 <= pos <= old_best.len(),
        pos < k,
        old_best.len() <= k,
        old_best.len() <= i,
        forall|q: int| 0 <= q < old_best.len() ==> #[trigger] old_best[q] < i,
        forall|q: int, r: int| 0 <= q < r < old_best.len() ==> #[trigger] old_best[q] != #[trigger] old_best[r],
        forall|q: int| 0 <= q < pos ==> spec_ge(scores[#[trigger] old_best[q] as int], scores[i]),
        pos == old_best.len() || !spec_ge(scores[old_best[pos] as int], scores[i]),
        new_best == if old_best.len() + 1 > k {
            old_best.insert(pos, i as usize).drop_last()
        } else {
            old_best.insert(pos, i as usize)
        },
        no_nan(scores) ==> is_top_k(scores.subrange(0, i), k, old_best.map_values(|p: usize| p as int)),
    ensures
        new_best.len() <= k,
        new_best.len() <= i + 1,
        forall|q: int| 0 <= q < new_best.len() ==> #[trigger] new_best[q] < i + 1,
        forall|q: int, r: int| 0 <= q < r < new_best.len() ==> #[trigger] new_best[q] != #[trigger] new_best[r],
        no_nan(scores) ==> is_top_k(scores.subrange(0, i + 1), k, new_best.map_values(|p: usize| p as int)),
{
    let ins = old_best.insert(pos, i as usize);
    assert(ins[pos] == i as usize);
    assert forall|q: int| 0 <= q < new_best.len() implies #[trigger] new_best[q] == ins[q] by {}
    assert forall|q: int| 0 <= q < ins.len() implies #[trigger] ins[q] < i + 1 && (q < pos ==> ins[q] == old_best[q]) && (q > pos ==> ins[q] == old_best[q - 1]) by {
        if q < pos {
            assert(ins[q] == old_best[q]);
        } else if q > pos {
            assert(ins[q] == old_best[q - 1]);
        }
    }
    assert forall|q: int, r: int| 0 <= q < r < ins.len() implies #[trigger] ins[q] != #[trigger] ins[r] by {
        if q == pos {
            assert(ins[r] == old_best[r - 1]);
        } else if r == pos {
            assert(ins[q] == old_best[q]);
        } else if q < pos && r < pos {
            assert(ins[q] == old_best[q]);
            assert(ins[r] == old_best[r]);
        } else if q < pos {
            assert(ins[q] == old_best[q]);
            assert(ins[r] == old_best[r - 1]);
        } else {
            assert(ins[q] == old_best[q - 1]);
            assert(ins[r] == old_best[r - 1]);
        }
    }
    if no_nan(scores) {
        let s0 = scores.subrange(0, i);
        let s1 = scores.subrange(0, i + 1);
        let ob = old_best.map_values(|p: usize| p as int);
        let nb = new_best.map_values(|p: usize| p as int);
        let ib = ins.map_values(|p: usize| p as int);
        assert forall|x: int| 0 <= x < i implies #[trigger] s0[x] == scores[x] && s1[x] == scores[x] by {}
        assert(s1[i] == scores[i]);
        // order on the inserted list
        assert forall|q: int, r: int| 0 <= q < r < ib.len() implies ranks_ahead(s1, #[trigger] ib[q], #[trigger] ib[r]) by {
            if q < pos && r < pos {
                assert(ranks_ahead(s0, ob[q], ob[r]));
            } else if q < pos && r == pos {
                assert(spec_ge(scores[old_best[q] as int], scores[i]));
            } else if q < pos {
                assert(ib[r] == ob[r - 1]);
                assert(ranks_ahead(s0, ob[q], ob[r - 1]));
            } else if q == pos {
                assert(ib[r] == ob[r - 1]);
                assert(!spec_ge(scores[old_best[pos] as int], scores[i]));
                if r - 1 > pos {
                    assert(ranks_ahead(s0, ob[pos], ob[r - 1]));
                }
            } else {
                assert(ib[q] == ob[q - 1]);
                assert(ib[r] == ob[r - 1]);
                assert(ranks_ahead(s0, ob[q - 1], ob[r - 1]));
            }
        }
        // the unselected follow every selected one
        assert(ob.len() == if k < s0.len() { k } else { s0.len() });
        assert forall|q: int, x: int| 0 <= q < nb.len() && 0 <= x < s1.len() && !nb.contains(x) implies #[trigger] ranks_ahead(s1, nb[q], x) by {
            assert(nb[q] == ib[q]);
            let last = ib.len() - 1;
            if x == i {
                if nb.len() == ib.len() {
                    assert(nb[pos] == i);
                }
                assert(nb.len() == ib.len() - 1);
                if pos < last {
                    assert(nb[pos] == i);
                }
                assert(ib[last] == i);
                assert(ranks_ahead(s1, ib[q], ib[last]));
            } else if ob.contains(x) {
                let w = choose|w: int| 0 <= w < ob.len() && ob[w] == x;
                let idx = if w < pos { w } else { w + 1 };
                assert(ib[idx] == x);
                if idx < nb.len() {
                    assert(nb[idx] == x);
                }
                assert(idx == last);
                assert(ranks_ahead(s1, ib[q], ib[last]));
            } else {
                assert(x < i);
                assert(s0[x] == s1[x]);
                if q == pos {
                    assert(ib[q] == i);
                    if pos < ob.len() {
                        let y = ob[pos];
                        assert(ranks_ahead(s0, ob[pos], x)) by {
                            assert(s0[x] == scores[x]);
                        }
                        assert(y < i);
                        assert(s0[y] == scores[y]);
                        assert(!spec_ge(scores[y], scores[i]));
                    } else {
                        assert(ob.len() == s0.len()) by {
                            assert(ob.len() < k);
                        }
                        // every earlier position is selected, so x is too
                        assert(ob.contains(x)) by {
                            lemma_all_selected(ob, i);
                        }
                    }
                } else {
                    let oq = if q < pos { q } else { q - 1 };
                    assert(ib[q] == ob[oq]);
                    assert(ranks_ahead(s0, ob[oq], x)) by {
                        assert(s0[x] == scores[x]);
                    }
                    assert(ob[oq] < i);
                    assert(s0[ob[oq]] == s1[ob[oq]]);
                }
            }
        }
        assert forall|q: int| 0 <= q < nb.len() implies 0 <= #[trigger] nb[q] < s1.len() by {
            assert(nb[q] == ib[q]);
        }
        assert forall|q: int, r: int| 0 <= q < r < nb.len() implies ranks_ahead(s1, #[trigger] nb[q], #[trigger] nb[r]) by {
            assert(nb[q] == ib[q]);
            assert(nb[r] == ib[r]);
        }
        assert(nb.len() == if k < s1.len() { k } else { s1.len() }) by {
            assert(ob.len() == if k < s0.len() { k } else { s0.len() });
        }
    }
}

/// `n` distinct positions below `n` are all of them.
pub proof fn lemma_all_selected(ob: Seq<int>, n: int)
    requires
        ob.len() == n,
        forall|q: int| 0 <= q < ob.len() ==> 0 <= #[trigger] ob[q] < n,
        forall|q: int, r: int| 0 <= q < r < ob.len() ==> #[trigger] ob[q] != #[trigger] ob[r],
    ensures
        forall|x: int| 0 <= x < n ==> ob.contains(x),
{
    assert forall|x: int| 0 <= x < n implies ob.contains(x) by {
        if !ob.contains(x) {
            // the positions would fit in n - 1 slots
            let s = ob.to_set();
            assert(ob.no_duplicates()) by {
                assert forall|a: int, b: int| 0 <= a < ob.len() && 0 <= b < ob.len() && a != b implies ob[a] != ob[b] by {
                    if a < b {
                        assert(ob[a] != ob[b]);
                    } else {
                        assert(ob[b] != ob[a]);
                    }
                }
            }
            ob.unique_seq_to_set();
            let full = Set::new(|y: int| 0 <= y < n && y != x);
            assert(s.subset_of(full));
            vstd::set_lib::lemma_int_range(0, n);
            assert(full =~= vstd::set_lib::set_int_range(0, n).remove(x));
            vstd::set_lib::lemma_len_subset(s, full);
        }
    }
}

/// Position `i` does not enter a full shortlist whose members all score at least as high.
pub proof fn lemma_top_k_skip(scores: Seq<u32>, k: nat, i: int, pos: int, old_best: Seq<usize>)
    requires
        k > 0,
        0 <= i < scores.len(),
        scores.len() <= usize::MAX,
        old_best.len() <= k,
        pos <= old_best.len(),
        pos >= k,
        forall|q: int| 0 <= q < pos ==> spec_ge(scores[#[trigger] old_best[q] as int], scores[i]),
        forall|q: int| 0 <= q < old_best.len() ==> #[trigger] old_best[q] < i,
        no_nan(scores) ==> is_top_k(scores.subrange(0, i), k, old_best.map_values(|p: usize| p as int)),
    ensures
        no_nan(scores) ==> is_top_k(scores.subrange(0, i + 1), k, old_best.map_values(|p: usize| p as int)),
{
    if no_nan(scores) {
        let s0 = scores.subrange(0, i);
        let s1 = scores.subrange(0, i + 1);
        let ob = old_best.map_values(|p: usize| p as int);
        assert forall|x: int| 0 <= x < i implies #[trigger] s0[x] == scores[x] && s1[x] == scores[x] by {}
        assert(s1[i] == scores[i]);
        assert(ob.len() == k);
        assert forall|q: int, x: int| 0 <= q < ob.len() && 0 <= x < s1.len() && !ob.contains(x) implies #[trigger] ranks_ahead(s1, ob[q], x) by {
            if x == i {
                assert(spec_ge(scores[old_best[q] as int], scores[i]));
                assert(ob[q] < i);
            } else {
                assert(ranks_ahead(s0, ob[q], x));
            }
        }
        assert forall|q: int, r: int| 0 <= q < r < ob.len() implies ranks_ahead(s1, #[trigger] ob[q], #[trigger] ob[r]) by {
            assert(ranks_ahead(s0, ob[q], ob[r]));
        }
    }
}

/// The search results for the selected positions.
pub open spec fn results_for(ids: Seq<Seq<char>>, scores: Seq<u32>, sel: Seq<int>, r: Seq<VectorSearchResult>) -> bool {
    &&& r.len() == sel.len()
    &&& forall|q: int|
        0 <= q < r.len() ==> (#[trigger] r[q]).node_id@ == ids[sel[q]] && r[q].score == scores[sel[q]]
}

/// What a search returns given the score of every stored vector (in insertion order):
/// nothing when the query has the wrong dimension, the index is empty or `top_k` is 0;
/// otherwise the entries of the [`shortlist`] of the scores, which without NaN scores are
/// the `top_k` best, best first, ties in insertion order.
pub open spec fn search_result_ok(
    ids: Seq<Seq<char>>,
    dimension: usize,
    query_len: usize,
    scores: Seq<u32>,
    top_k: usize,
    r: Seq<VectorSearchResult>,
) -> bool {
    if query_len != dimension || ids.len() == 0 || top_k == 0 {
        r.len() == 0
    } else {
        let sel = shortlist(scores, top_k as nat, scores.len()).map_values(|p: usize| p as int);
        &&& r.len() <= top_k
        &&& results_for(ids, scores, sel, r)
        &&& forall|q: int| 0 <= q < sel.len() ==> 0 <= #[trigger] sel[q] < ids.len()
        &&& forall|q: int, w: int| 0 <= q < w < sel.len() ==> #[trigger] sel[q] != #[trigger] sel[w]
        &&& (no_nan(scores) ==> is_top_k(scores, top_k as nat, sel))
    }
}

/// Builds the results for the selected positions.
fn results_at(ids: &Vec<String>, scores: &Vec<u32>, sel: &Vec<usize>) -> (r: Vec<VectorSearchResult>)
    requires
        ids@.len() == scores@.len(),
        forall|q: int| 0 <= q < sel@.len() ==> #[trigger] sel@[q] < ids@.len(),
    ensures
        results_for(crate::keys::string_views(ids@), scores@, sel@.map_values(|p: usize| p as int), r@),
{
    let mut r: Vec<VectorSearchResult> = Vec::new();
    let mut q: usize = 0;
    while q < sel.len()
        invariant
            ids@.len() == scores@.len(),
            forall|w: int| 0 <= w < sel@.len() ==> #[trigger] sel@[w] < ids@.len(),
            q <= sel@.len(),
            r@.len() == q,
            forall|w: int|
                0 <= w < q ==> (#[trigger] r@[w]).node_id@ == ids@[sel@[w] as int]@ && r@[w].score == scores@[sel@[w] as int],
        decreases sel@.len() - q,
    {
        let p = sel[q];
        r.push(VectorSearchResult { node_id: ids[p].clone(), score: scores[p] });
        q = q + 1;
    }
    r
}

/// The vector backend of the engine behind the C ABI, as recorded in snapshots.
pub const CAPI_INDEX_KIND: &'static str = "f32";

/// The index the engine behind the C ABI uses: the exact f32 one.
pub type CapiIndex = SimpleVectorIndex;

/// The exact f32 index: each embedding stored with its node id.
#[derive(Debug, Clone)]
pub struct SimpleVectorIndex {
    dimension: usize,
    vectors: Vec<(String, Vec<u32>)>,
}

impl SimpleVectorIndex {
    /// The dimension every embedding must have.
    pub closed spec fn spec_dimension(&self) -> usize {
        self.dimension
    }

    /// The stored (node id, embedding) pairs, in insertion order.
    pub closed spec fn spec_entries(&self) -> Seq<(Seq<char>, Seq<u32>)> {
        self.vectors@.map_values(|e: (String, Vec<u32>)| (e.0@, e.1@))
    }

    /// The stored node ids, in insertion order.
    pub open spec fn spec_ids(&self) -> Seq<Seq<char>> {
        self.spec_entries().map_values(|e: (Seq<char>, Seq<u32>)| e.0)
    }

    pub fn new(dimension: usize) -> (r: Self)
        ensures
            r.spec_dimension() == dimension,
            r.spec_entries() == Seq::<(Seq<char>, Seq<u32>)>::empty(),
    {
        let r = SimpleVectorIndex { dimension, vectors: Vec::new() };
        assert(r.spec_entries() =~= Seq::<(Seq<char>, Seq<u32>)>::empty());
        r
    }

    /// The dimension every embedding must have.
    pub fn dimension(&self) -> (r: usize)
        ensures
            r == self.spec_dimension(),
    {
        self.dimension
    }

    /// Stores an embedding (components as f32 bits); an embedding of the wrong dimension
    /// is refused with a message naming both dimensions.
    pub fn insert(&mut self, node_id: String, embedding: Vec<u32>) -> (r: Result<(), String>)
        ensures
            final(self).spec_dimension() == old(self).spec_dimension(),
            embedding@.len() == old(self).spec_dimension() ==> (r is Ok && final(self).spec_entries()
                == old(self).spec_entries().push((node_id@, embedding@))),
            embedding@.len() != old(self).spec_dimension() ==> (final(self).spec_entries()
                == old(self).spec_entries() && (r matches Err(msg) && msg@ == dimension_error(
                old(self).spec_dimension(),
                embedding@.len() as usize,
            ))),
    {
        if embedding.len() != self.dimension {
            return Err(dimension_error_message(self.dimension, embedding.len()));
        }
        let ghost before = self.spec_entries();
        let ghost id = node_id@;
        let ghost ev = embedding@;
        self.vectors.push((node_id, embedding));
        assert(self.spec_entries() =~= before.push((id, ev)));
        Ok(())
    }

    /// Number of stored vectors.
    pub fn len(&self) -> (r: usize)
        ensures
            r == self.spec_entries().len(),
    {
        self.vectors.len()
    }

    pub fn is_empty(&self) -> (r: bool)
        ensures
            r == (self.spec_entries().len() == 0),
    {
        self.vectors.len() == 0
    }

    /// Read-only view of the (node id, embedding) pairs.
    pub fn entries(&self) -> (r: &[(String, Vec<u32>)])
        ensures
            r@.map_values(|e: (String, Vec<u32>)| (e.0@, e.1@)) == self.spec_entries(),
    {
        self.vectors.as_slice()
    }

    /// The stored ids, in insertion order.
    pub fn ids(&self) -> (r: Vec<String>)
        ensures
            crate::keys::string_views(r@) == self.spec_ids(),
    {
        let mut r: Vec<String> = Vec::new();
        let mut i: usize = 0;
        while i < self.vectors.len()
            invariant
                i <= self.vectors@.len(),
                crate::keys::string_views(r@) == self.spec_ids().subrange(0, i as int),
            decreases self.vectors@.len() - i,
        {
            let ghost old_r = r@;
            r.push(self.vectors[i].0.clone());
            proof {
                assert(self.spec_ids()[i as int] == self.vectors@[i as int].0@);
                assert(crate::keys::string_views(r@) =~= crate::keys::string_views(old_r).push(self.vectors@[i as int].0@));
                assert(crate::keys::string_views(r@) =~= self.spec_ids().subrange(0, i + 1));
            }
            i = i + 1;
        }
        proof {
            assert(self.spec_ids().subrange(0, i as int) =~= self.spec_ids());
        }
        r
    }

    /// Exact top-k given the cosine score (f32 bits) of every stored vector against a query
    /// of length `query_len` (see [`search_result_ok`]).
    pub fn search_with_scores(&self, query_len: usize, scores: &Vec<u32>, top_k: usize) -> (r: Vec<VectorSearchResult>)
        requires
            scores@.len() == self.spec_entries().len(),
        ensures
            search_result_ok(self.spec_ids(), self.spec_dimension(), query_len, scores@, top_k, r@),
    {
        if query_len != self.dimension || self.vectors.len() == 0 || top_k == 0 {
            return Vec::new();
        }
        let sel = top_k_positions(scores, top_k);
        let ids = self.ids();
        proof {
            assert(crate::keys::string_views(ids@).len() == ids@.len());
            assert(self.spec_ids().len() == self.spec_entries().len());
        }
        let r = results_at(&ids, scores, &sel);
        proof {
            let sv = sel@.map_values(|p: usize| p as int);
            assert(crate::keys::string_views(ids@) == self.spec_ids());
            assert forall|q: int, w: int| 0 <= q < w < sv.len() implies #[trigger] sv[q] != #[trigger] sv[w] by {
                assert(sel@[q] != sel@[w]);
            }
            assert(results_for(self.spec_ids(), scores@, sv, r@));
            assert(forall|q: int| 0 <= q < sv.len() ==> 0 <= #[trigger] sv[q] < self.spec_ids().len());
            assert(no_nan(scores@) ==> is_top_k(scores@, top_k as nat, sv));
            assert({
                &&& results_for(self.spec_ids(), scores@, sv, r@)
                &&& forall|q: int| 0 <= q < sv.len() ==> 0 <= #[trigger] sv[q] < self.spec_ids().len()
                &&& forall|q: int, w: int| 0 <= q < w < sv.len() ==> #[trigger] sv[q] != #[trigger] sv[w]
                &&& (no_nan(scores@) ==> is_top_k(scores@, top_k as nat, sv))
            });
            assert(self.spec_ids().len() == self.vectors@.len());
            assert(r@.len() <= top_k);
        }
        r
    }

    /// Drops every vector whose id is not in `keep` (eviction must reach the index too: the
    /// embedding is the bulk of a node's cost). Returns the number removed.
    pub fn retain_ids(&mut self, keep: &[String]) -> (removed: usize)
        ensures
            final(self).spec_dimension() == old(self).spec_dimension(),
            final(self).spec_entries() == mask_filter(
                old(self).spec_entries(),
                old(self).spec_entries().map_values(|e: (Seq<char>, Seq<u32>)| crate::keys::string_views(keep@).contains(e.0)),
            ),
            removed == old(self).spec_entries().len() - final(self).spec_entries().len(),
    {
        let ghost old_entries = self.spec_entries();
        let ghost kv = crate::keys::string_views(keep@);
        let n = self.vectors.len();
        let mut flags: Vec<bool> = Vec::new();
        let mut i: usize = 0;
        while i < n
            invariant
                n == self.vectors@.len(),
                old_entries == self.spec_entries(),
                kv == crate::keys::string_views(keep@),
                i <= n,
                flags@.len() == i,
                forall|j: int| 0 <= j < i ==> #[trigger] flags@[j] == kv.contains(old_entries[j].0),
            decreases n - i,
        {
            proof {
                let id = old_entries[i as int].0;
                assert(id == self.vectors@[i as int].0@);
                assert(kv.contains(id) == exists|k: int| 0 <= k < keep@.len() && #[trigger] keep@[k]@ == id) by {
                    if kv.contains(id) {
                        let k = choose|k: int| 0 <= k < kv.len() && kv[k] == id;
                        assert(keep@[k]@ == kv[k]);
                    }
                    if exists|k: int| 0 <= k < keep@.len() && #[trigger] keep@[k]@ == id {
                        let k = choose|k: int| 0 <= k < keep@.len() && #[trigger] keep@[k]@ == id;
                        assert(kv[k] == id);
                    }
                }
            }
            flags.push(crate::keys::contains_string(keep, self.vectors[i].0.as_str()));
            i = i + 1;
        }
        let mut taken: Vec<(String, Vec<u32>)> = Vec::new();
        std::mem::swap(&mut taken, &mut self.vectors);
        let ghost raw = taken@;
        self.vectors = filter_by_mask(taken, &flags);
        proof {
            crate::util::lemma_mask_filter_map(raw, flags@, |e: (String, Vec<u32>)| (e.0@, e.1@));
            assert(flags@ =~= old_entries.map_values(|e: (Seq<char>, Seq<u32>)| kv.contains(e.0)));
            crate::util::lemma_mask_filter_len(raw, flags@);
            crate::util::lemma_mask_filter_len(old_entries, flags@);
            crate::util::lemma_count_true_bound(flags@);
        }
        n - self.vectors.len()
    }
}

/// The int8-quantized index: each embedding stored as i8 codes with one f32 scale (as
/// bits), about four times smaller than the exact index. Quantizing is done by the caller.
#[derive(Debug, Clone)]
pub struct Int8VectorIndex {
    dimension: usize,
    vectors: Vec<(String, Vec<i8>, u32)>,
}

impl Int8VectorIndex {
    /// The dimension every embedding must have.
    pub closed spec fn spec_dimension(&self) -> usize {
        self.dimension
    }

    /// The stored (node id, embedding) pairs, in insertion order.
    pub closed spec fn spec_entries(&self) -> Seq<(Seq<char>, Seq<i8>, u32)> {
        self.vectors@.map_values(|e: (String, Vec<i8>, u32)| (e.0@, e.1@, e.2))
    }

    /// The stored node ids, in insertion order.
    pub open spec fn spec_ids(&self) -> Seq<Seq<char>> {
        self.spec_entries().map_values(|e: (Seq<char>, Seq<i8>, u32)| e.0)
    }

    pub fn new(dimension: usize) -> (r: Self)
        ensures
            r.spec_dimension() == dimension,
            r.spec_entries() == Seq::<(Seq<char>, Seq<i8>, u32)>::empty(),
    {
        let r = Int8VectorIndex { dimension, vectors: Vec::new() };
        assert(r.spec_entries() =~= Seq::<(Seq<char>, Seq<i8>, u32)>::empty());
        r
    }

    /// The dimension every embedding must have.
    pub fn dimension(&self) -> (r: usize)
        ensures
            r == self.spec_dimension(),
    {
        self.dimension
    }

    /// Stores quantized codes with their scale (f32 bits); codes of the wrong dimension are
    /// refused with a message naming both dimensions.
    pub fn insert_quantized(&mut self, node_id: String, codes: Vec<i8>, scale: u32) -> (r: Result<(), String>)
        ensures
            final(self).spec_dimension() == old(self).spec_dimension(),
            codes@.len() == old(self).spec_dimension() ==> (r is Ok && final(self).spec_entries()
                == old(self).spec_entries().push((node_id@, codes@, scale))),
            codes@.len() != old(self).spec_dimension() ==> (final(self).spec_entries()
                == old(self).spec_entries() && (r matches Err(msg) && msg@ == dimension_error(
                old(self).spec_dimension(),
                codes@.len() as usize,
            ))),
    {
        if codes.len() != self.dimension {
            return Err(dimension_error_message(self.dimension, codes.len()));
        }
        let ghost before = self.spec_entries();
        let ghost id = node_id@;
        let ghost cv = codes@;
        self.vectors.push((node_id, codes, scale));
        assert(self.spec_entries() =~= before.push((id, cv, scale)));
        Ok(())
    }

    /// Number of stored vectors.
    pub fn len(&self) -> (r: usize)
        ensures
            r == self.spec_entries().len(),
    {
        self.vectors.len()
    }

    pub fn is_empty(&self) -> (r: bool)
        ensures
            r == (self.spec_entries().len() == 0),
    {
        self.vectors.len() == 0
    }

    /// Read-only view of the (node id, embedding) pairs.
    pub fn entries(&self) -> (r: &[(String, Vec<i8>, u32)])
        ensures
            r@.map_values(|e: (String, Vec<i8>, u32)| (e.0@, e.1@, e.2)) == self.spec_entries(),
    {
        self.vectors.as_slice()
    }

    /// The stored ids, in insertion order.
    pub fn ids(&self) -> (r: Vec<String>)
        ensures
            crate::keys::string_views(r@) == self.spec_ids(),
    {
        let mut r: Vec<String> = Vec::new();
        let mut i: usize = 0;
        while i < self.vectors.len()
            invariant
                i <= self.vectors@.len(),
                crate::keys::string_views(r@) == self.spec_ids().subrange(0, i as int),
            decreases self.vectors@.len() - i,
        {
            let ghost old_r = r@;
            r.push(self.vectors[i].0.clone());
            proof {
                assert(self.spec_ids()[i as int] == self.vectors@[i as int].0@);
                assert(crate::keys::string_views(r@) =~= crate::keys::string_views(old_r).push(self.vectors@[i as int].0@));
                assert(crate::keys::string_views(r@) =~= self.spec_ids().subrange(0, i + 1));
            }
            i = i + 1;
        }
        proof {
            assert(self.spec_ids().subrange(0, i as int) =~= self.spec_ids());
        }
        r
    }

    /// Top-k given the cosine score (f32 bits) of every stored vector against a query
    /// of length `query_len` (see [`search_result_ok`]).
    pub fn search_with_scores(&self, query_len: usize, scores: &Vec<u32>, top_k: usize) -> (r: Vec<VectorSearchResult>)
        requires
            scores@.len() == self.spec_entries().len(),
        ensures
            search_result_ok(self.spec_ids(), self.spec_dimension(), query_len, scores@, top_k, r@),
    {
        if query_len != self.dimension || self.vectors.len() == 0 || top_k == 0 {
            return Vec::new();
        }
        let sel = top_k_positions(scores, top_k);
        let ids = self.ids();
        proof {
            assert(crate::keys::string_views(ids@).len() == ids@.len());
            assert(self.spec_ids().len() == self.spec_entries().len());
        }
        let r = results_at(&ids, scores, &sel);
        proof {
            let sv = sel@.map_values(|p: usize| p as int);
            assert(crate::keys::string_views(ids@) == self.spec_ids());
            assert forall|q: int, w: int| 0 <= q < w < sv.len() implies #[trigger] sv[q] != #[trigger] sv[w] by {
                assert(sel@[q] != sel@[w]);
            }
            assert(results_for(self.spec_ids(), scores@, sv, r@));
            assert(forall|q: int| 0 <= q < sv.len() ==> 0 <= #[trigger] sv[q] < self.spec_ids().len());
            assert(no_nan(scores@) ==> is_top_k(scores@, top_k as nat, sv));
            assert({
                &&& results_for(self.spec_ids(), scores@, sv, r@)
                &&& forall|q: int| 0 <= q < sv.len() ==> 0 <= #[trigger] sv[q] < self.spec_ids().len()
                &&& forall|q: int, w: int| 0 <= q < w < sv.len() ==> #[trigger] sv[q] != #[trigger] sv[w]
                &&& (no_nan(scores@) ==> is_top_k(scores@, top_k as nat, sv))
            });
            assert(self.spec_ids().len() == self.vectors@.len());
            assert(r@.len() <= top_k);
        }
        r
    }

    /// Drops every vector whose id is not in `keep` (eviction must reach the index too: the
    /// embedding is the bulk of a node's cost). Returns the number removed.
    pub fn retain_ids(&mut self, keep: &[String]) -> (removed: usize)
        ensures
            final(self).spec_dimension() == old(self).spec_dimension(),
            final(self).spec_entries() == mask_filter(
                old(self).spec_entries(),
                old(self).spec_entries().map_values(|e: (Seq<char>, Seq<i8>, u32)| crate::keys::string_views(keep@).contains(e.0)),
            ),
            removed == old(self).spec_entries().len() - final(self).spec_entries().len(),
    {
        let ghost old_entries = self.spec_entries();
        let ghost kv = crate::keys::string_views(keep@);
        let n = self.vectors.len();
        let mut flags: Vec<bool> = Vec::new();
        let mut i: usize = 0;
        while i < n
            invariant
                n == self.vectors@.len(),
                old_entries == self.spec_entries(),
                kv == crate::keys::string_views(keep@),
                i <= n,
                flags@.len() == i,
                forall|j: int| 0 <= j < i ==> #[trigger] flags@[j] == kv.contains(old_entries[j].0),
            decreases n - i,
        {
            proof {
                let id = old_entries[i as int].0;
                assert(id == self.vectors@[i as int].0@);
                assert(kv.contains(id) == exists|k: int| 0 <= k < keep@.len() && #[trigger] keep@[k]@ == id) by {
                    if kv.contains(id) {
                        let k = choose|k: int| 0 <= k < kv.len() && kv[k] == id;
                        assert(keep@[k]@ == kv[k]);
                    }
                    if exists|k: int| 0 <= k < keep@.len() && #[trigger] keep@[k]@ == id {
                        let k = choose|k: int| 0 <= k < keep@.len() && #[trigger] keep@[k]@ == id;
                        assert(kv[k] == id);
                    }
                }
            }
            flags.push(crate::keys::contains_string(keep, self.vectors[i].0.as_str()));
            i = i + 1;
        }
        let mut taken: Vec<(String, Vec<i8>, u32)> = Vec::new();
        std::mem::swap(&mut taken, &mut self.vectors);
        let ghost raw = taken@;
        self.vectors = filter_by_mask(taken, &flags);
        proof {
            crate::util::lemma_mask_filter_map(raw, flags@, |e: (String, Vec<i8>, u32)| (e.0@, e.1@, e.2));
            assert(flags@ =~= old_entries.map_values(|e: (Seq<char>, Seq<i8>, u32)| kv.contains(e.0)));
            crate::util::lemma_mask_filter_len(raw, flags@);
            crate::util::lemma_mask_filter_len(old_entries, flags@);
            crate::util::lemma_count_true_bound(flags@);
        }
        n - self.vectors.len()
    }
}

} // verus!
