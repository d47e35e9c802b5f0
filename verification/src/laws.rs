//! Properties of the memory engine as a whole, stated over the models that the
//! operations' contracts use, and proved.
use vstd::prelude::*;
use crate::canon::CanonLevel;
use crate::graph_nexus::{
    after_feedback, count_promotable, has_id, lemma_flagged_ids_sorted, lemma_node_of_at, lemma_reach_in_nodes,
    neighbor_ids, node_of, node_valid, nodes_sorted, promotable, promoted, reach, reach_ids, recall_admissible,
    recall_order, spec_recall_candidates, update_where, EdgeView, MemoryGraphNexus, MemoryNode,
};
use crate::keys::{id_lt, lemma_sorted_no_duplicates};
use crate::util::{lemma_mask_filter_indices, mask_filter};
use crate::provenance::spec_importance_cap;
use crate::fround::{
    drop_bits, lemma_drop_bits_bound, lemma_fields, lemma_pattern_of_round, lemma_round_error, lemma_units_order,
    spec_add, spec_sub, units,
};
use crate::graph_nexus::{lemma_reject_step_units, CONFIRM_STEP, REJECT_STEP};
use vstd::arithmetic::power2::{pow2, lemma2_to64, lemma_pow2_adds, lemma_pow2_pos, lemma_pow2_strictly_increases, lemma_pow2_unfold};
use crate::topology_24cell::{boost_in, is_default_ontology, lemma_default_topology_symmetric, neighbor_in, Topology24Cell};
use crate::vector_index::VectorSearchResult;
use crate::graph_nexus::{capacity_enforced, spec_cluster_for, spec_infer_cluster, spec_scope_clusters};
use crate::entities::{
    before_apostrophe, is_entity, lead, lemma_scan_back, lemma_scan_until, plain, scan_back, scan_until,
    spec_entities_classified, token_of, trimmed, words, ClassifiedChar,
};
use crate::provenance::SourceType;
use crate::fbits::spec_ge;
use crate::text::spec_to_lowercase;

verus! {

/// The provenance ceiling is absolute: in every state of a graph, each node's importance
/// is within the ceiling of its provenance, and a node is ephemeral exactly when it is not
/// canon.
pub proof fn lemma_provenance_ceiling(g: &MemoryGraphNexus, i: int)
    requires
        g.wf(),
        0 <= i < g.spec_nodes().len(),
    ensures
        g.spec_nodes()[i].importance <= spec_importance_cap(g.spec_nodes()[i].source_type),
        g.spec_nodes()[i].is_ephemeral == !g.spec_nodes()[i].canon_level.spec_is_canon(),
{
    g.lemma_wf_nodes();
    assert(node_valid(g.spec_nodes()[i]));
}

/// Rejection outweighs confirmation: a confirmation followed by a rejection never leaves a
/// node more important than before, and leaves it strictly less important unless its
/// importance was already zero.
pub proof fn lemma_rejection_outweighs_confirmation(n: MemoryNode)
    requires
        node_valid(n),
    ensures
        after_feedback(after_feedback(n, true), false).importance <= n.importance,
        n.importance > 0 ==> after_feedback(after_feedback(n, true), false).importance < n.importance,
{
    let v = n.importance;
    let cap = spec_importance_cap(n.source_type);
    let p = pow2(123);
    lemma_reject_step_units();
    lemma2_to64();
    lemma_pow2_pos(123);
    lemma_pow2_adds(123, 27);
    lemma_pow2_unfold(151);
    // v is at most 1.0, which is 2^26 * 2^123 units
    lemma_fields(127, 0);
    assert((127 * 0x80_0000 + 0) as u32 == 0x3f80_0000u32);
    lemma_pow2_adds(23, 126);
    assert(units(0x3f80_0000) == 0x400_0000 * p);
    lemma_units_order(v, 0x3f80_0000);
    // the confirmation: rounded sum, within 2^126 units of the exact one
    let raised = spec_add(v, CONFIRM_STEP);
    let s1 = units(v) + units(CONFIRM_STEP);
    assert(s1 < pow2(150));
    lemma_pattern_of_round(s1);
    lemma_drop_bits_bound(s1, 126);
    if drop_bits(s1) < 126 {
        lemma_pow2_strictly_increases(drop_bits(s1), 126);
    }
    lemma_round_error(s1);
    assert(units(raised) <= s1 + 8 * p);
    let c = if raised < cap { raised } else { cap };
    assert(c == after_feedback(n, true).importance);
    lemma_units_order(c, raised);
    if REJECT_STEP < c {
        lemma_units_order(REJECT_STEP, c);
        let s2 = (units(c) - units(REJECT_STEP)) as nat;
        let r = spec_sub(c, REJECT_STEP);
        assert(s2 < pow2(150));
        lemma_pattern_of_round(s2);
        lemma_drop_bits_bound(s2, 126);
        if drop_bits(s2) < 126 {
            lemma_pow2_strictly_increases(drop_bits(s2), 126);
        }
        lemma_round_error(s2);
        assert(units(r) < units(v));
        if r >= v {
            lemma_units_order(v, r);
        }
    }
}

/// Human feedback moves retention, never recall: recording a verdict on any node leaves
/// the ids, provenance and canon level of every node as they were, and recall admits the
/// same candidates, in the same order, before and after.
pub proof fn lemma_feedback_moves_retention_not_recall(
    nodes: Seq<MemoryNode>,
    id: Seq<char>,
    helpful: bool,
    candidates: Seq<VectorSearchResult>,
)
    requires
        nodes_sorted(nodes),
    ensures
        ({
            let after = update_where(nodes, id, |n: MemoryNode| after_feedback(n, helpful));
            &&& after.len() == nodes.len()
            &&& forall|i: int| 0 <= i < nodes.len() ==> {
                &&& (#[trigger] after[i]).id@ == nodes[i].id@
                &&& after[i].source_type == nodes[i].source_type
                &&& after[i].canon_level == nodes[i].canon_level
                &&& after[i].content == nodes[i].content
            }
            &&& spec_recall_candidates(after, candidates) == spec_recall_candidates(nodes, candidates)
        }),
{
    let after = update_where(nodes, id, |n: MemoryNode| after_feedback(n, helpful));
    assert forall|a: int, b: int| 0 <= a < b < after.len() implies id_lt(#[trigger] after[a].id@, #[trigger] after[b].id@) by {
        assert(id_lt(nodes[a].id@, nodes[b].id@));
    }
    assert forall|c: VectorSearchResult| recall_admissible(after, c) == recall_admissible(nodes, c) by {
        let x = c.node_id@;
        if has_id(nodes, x) {
            let i = choose|i: int| 0 <= i < nodes.len() && nodes[i].id@ == x;
            assert(after[i].id@ == x);
            lemma_node_of_at(nodes, i);
            lemma_node_of_at(after, i);
        } else {
            assert forall|i: int| 0 <= i < after.len() implies after[i].id@ != x by {
                assert(nodes[i].id@ != x);
            }
        }
    }
    let fa = candidates.map_values(|c: VectorSearchResult| recall_admissible(after, c));
    let fb = candidates.map_values(|c: VectorSearchResult| recall_admissible(nodes, c));
    assert(fa =~= fb);
}

/// Promotion is idempotent and never touches the model's self-description: after one
/// promotion sweep nothing is promotable any more, so a second sweep (same threshold, any
/// canon level) promotes nothing and changes nothing; a self-description node is left
/// exactly as it was.
pub proof fn lemma_promotion_idempotent(nodes: Seq<MemoryNode>, min_confirmations: u32, level: CanonLevel, level2: CanonLevel)
    requires
        level.spec_is_canon(),
    ensures
        ({
            let once = nodes.map_values(|n: MemoryNode| promoted(n, min_confirmations, level));
            &&& count_promotable(once, min_confirmations) == 0
            &&& once.map_values(|n: MemoryNode| promoted(n, min_confirmations, level2)) == once
            &&& forall|i: int| 0 <= i < nodes.len() && nodes[i].source_type.spec_is_self_description() ==> #[trigger] once[i] == nodes[i]
        }),
{
    let once = nodes.map_values(|n: MemoryNode| promoted(n, min_confirmations, level));
    assert forall|i: int| 0 <= i < once.len() implies !promotable(#[trigger] once[i], min_confirmations) by {}
    lemma_no_promotable(once, min_confirmations);
    assert(once.map_values(|n: MemoryNode| promoted(n, min_confirmations, level2)) =~= once);
}

/// No promotable node means a promotable count of zero.
proof fn lemma_no_promotable(nodes: Seq<MemoryNode>, min_confirmations: u32)
    requires
        forall|i: int| 0 <= i < nodes.len() ==> !promotable(#[trigger] nodes[i], min_confirmations),
    ensures
        count_promotable(nodes, min_confirmations) == 0,
    decreases nodes.len(),
{
    if nodes.len() > 0 {
        assert(!promotable(nodes[nodes.len() - 1], min_confirmations));
        lemma_no_promotable(nodes.drop_last(), min_confirmations);
    }
}

/// Association is undirected: `y` is among the neighbors of `x` exactly when `x` is among
/// the neighbors of `y`.
pub proof fn lemma_neighbors_symmetric(edges: Seq<EdgeView>, x: Seq<char>, y: Seq<char>)
    ensures
        neighbor_ids(edges, x).contains(y) <==> neighbor_ids(edges, y).contains(x),
    decreases edges.len(),
{
    if edges.len() > 0 {
        let p = edges.drop_last();
        lemma_neighbors_symmetric(p, x, y);
        let px = neighbor_ids(p, x);
        let py = neighbor_ids(p, y);
        let e = edges.last();
        assert(px.push(e.target_id).contains(y) <==> px.contains(y) || e.target_id == y) by {
            if px.push(e.target_id).contains(y) && !px.contains(y) {
                let k = choose|k: int| 0 <= k < px.len() + 1 && px.push(e.target_id)[k] == y;
                if k < px.len() {
                    assert(px[k] == y);
                }
            }
            if px.contains(y) {
                let k = choose|k: int| 0 <= k < px.len() && px[k] == y;
                assert(px.push(e.target_id)[k] == y);
            }
            if e.target_id == y {
                assert(px.push(e.target_id)[px.len() as int] == y);
            }
        }
        assert(px.push(e.source_id).contains(y) <==> px.contains(y) || e.source_id == y) by {
            if px.push(e.source_id).contains(y) && !px.contains(y) {
                let k = choose|k: int| 0 <= k < px.len() + 1 && px.push(e.source_id)[k] == y;
                if k < px.len() {
                    assert(px[k] == y);
                }
            }
            if px.contains(y) {
                let k = choose|k: int| 0 <= k < px.len() && px[k] == y;
                assert(px.push(e.source_id)[k] == y);
            }
            if e.source_id == y {
                assert(px.push(e.source_id)[px.len() as int] == y);
            }
        }
        assert(py.push(e.target_id).contains(x) <==> py.contains(x) || e.target_id == x) by {
            if py.push(e.target_id).contains(x) && !py.contains(x) {
                let k = choose|k: int| 0 <= k < py.len() + 1 && py.push(e.target_id)[k] == x;
                if k < py.len() {
                    assert(py[k] == x);
                }
            }
            if py.contains(x) {
                let k = choose|k: int| 0 <= k < py.len() && py[k] == x;
                assert(py.push(e.target_id)[k] == x);
            }
            if e.target_id == x {
                assert(py.push(e.target_id)[py.len() as int] == x);
            }
        }
        assert(py.push(e.source_id).contains(x) <==> py.contains(x) || e.source_id == x) by {
            if py.push(e.source_id).contains(x) && !py.contains(x) {
                let k = choose|k: int| 0 <= k < py.len() + 1 && py.push(e.source_id)[k] == x;
                if k < py.len() {
                    assert(py[k] == x);
                }
            }
            if py.contains(x) {
                let k = choose|k: int| 0 <= k < py.len() && py[k] == x;
                assert(py.push(e.source_id)[k] == x);
            }
            if e.source_id == x {
                assert(py.push(e.source_id)[py.len() as int] == x);
            }
        }
    }
}

/// Recall widens with depth: whatever `h` hops reach, any deeper expansion reaches too.
pub proof fn lemma_reach_monotone(nodes: Seq<MemoryNode>, edges: Seq<EdgeView>, seeds: Seq<Seq<char>>, h: nat, m: nat, y: Seq<char>)
    requires
        h <= m,
        reach(nodes, edges, seeds, h).contains(y),
    ensures
        reach(nodes, edges, seeds, m).contains(y),
    decreases m - h,
{
    if h < m {
        assert(reach(nodes, edges, seeds, h + 1).contains(y));
        lemma_reach_monotone(nodes, edges, seeds, h + 1, m, y);
    }
}

/// Every stored seed is recalled, at any depth.
pub proof fn lemma_stored_seeds_reached(nodes: Seq<MemoryNode>, edges: Seq<EdgeView>, seeds: Seq<Seq<char>>, h: nat, s: Seq<char>)
    requires
        seeds.contains(s),
        has_id(nodes, s),
    ensures
        reach(nodes, edges, seeds, h).contains(s),
{
    assert(reach(nodes, edges, seeds, 0).contains(s));
    lemma_reach_monotone(nodes, edges, seeds, 0, h, s);
}

/// A filtered sequence of distinct elements has distinct elements, all from the input.
proof fn lemma_filter_distinct(s: Seq<Seq<char>>, keep: Seq<bool>)
    requires
        s.no_duplicates(),
        keep.len() == s.len(),
    ensures
        mask_filter(s, keep).no_duplicates(),
        forall|x: Seq<char>| mask_filter(s, keep).contains(x) <==> exists|i: int| 0 <= i < s.len() && keep[i] && s[i] == x,
{
    let r = mask_filter(s, keep);
    let idx = lemma_mask_filter_indices(s, keep);
    assert forall|a: int, b: int| 0 <= a < r.len() && 0 <= b < r.len() && a != b implies r[a] != r[b] by {
        if a < b {
            assert(idx[a] < idx[b]);
        } else {
            assert(idx[b] < idx[a]);
        }
    }
    assert forall|x: Seq<char>| r.contains(x) <==> exists|i: int| 0 <= i < s.len() && keep[i] && s[i] == x by {
        if r.contains(x) {
            let k = choose|k: int| 0 <= k < r.len() && r[k] == x;
            assert(keep[idx[k]] && s[idx[k]] == x);
        }
        if exists|i: int| 0 <= i < s.len() && keep[i] && s[i] == x {
            let i = choose|i: int| 0 <= i < s.len() && keep[i] && s[i] == x;
            let k = choose|k: int| 0 <= k < idx.len() && idx[k] == i;
            assert(r[k] == x);
        }
    }
}

/// The recall order lists each reached id exactly once: with distinct seeds and distinct
/// reached ids, it has no duplicates and holds exactly the reached ids.
pub proof fn lemma_recall_order_lists_reached_once(seeds: Seq<Seq<char>>, reached: Seq<Seq<char>>)
    requires
        seeds.no_duplicates(),
        reached.no_duplicates(),
    ensures
        recall_order(seeds, reached).no_duplicates(),
        recall_order(seeds, reached).to_set() == reached.to_set(),
{
    let f1 = seeds.map_values(|x: Seq<char>| reached.contains(x));
    let f2 = reached.map_values(|x: Seq<char>| !seeds.contains(x));
    let p1 = mask_filter(seeds, f1);
    let p2 = mask_filter(reached, f2);
    lemma_filter_distinct(seeds, f1);
    lemma_filter_distinct(reached, f2);
    let r = p1 + p2;
    assert(r == recall_order(seeds, reached));
    assert forall|x: Seq<char>| p1.contains(x) implies seeds.contains(x) && reached.contains(x) by {
        let i = choose|i: int| 0 <= i < seeds.len() && f1[i] && seeds[i] == x;
    }
    assert forall|x: Seq<char>| p2.contains(x) implies !seeds.contains(x) && reached.contains(x) by {
        let i = choose|i: int| 0 <= i < reached.len() && f2[i] && reached[i] == x;
    }
    assert forall|a: int, b: int| 0 <= a < r.len() && 0 <= b < r.len() && a != b implies r[a] != r[b] by {
        if a < p1.len() && b < p1.len() {
        } else if a >= p1.len() && b >= p1.len() {
            assert(r[a] == p2[a - p1.len()] && r[b] == p2[b - p1.len()]);
        } else if a < p1.len() {
            assert(p1.contains(r[a]));
            assert(r[b] == p2[b - p1.len()]);
            assert(p2.contains(r[b]));
        } else {
            assert(p1.contains(r[b]));
            assert(r[a] == p2[a - p1.len()]);
            assert(p2.contains(r[a]));
        }
    }
    assert forall|x: Seq<char>| r.to_set().contains(x) <==> reached.to_set().contains(x) by {
        if r.contains(x) {
            let k = choose|k: int| 0 <= k < r.len() && r[k] == x;
            if k < p1.len() {
                assert(p1.contains(x));
            } else {
                assert(p2[k - p1.len()] == x);
                assert(p2.contains(x));
            }
        }
        if reached.contains(x) {
            if seeds.contains(x) {
                let i = choose|i: int| 0 <= i < seeds.len() && seeds[i] == x;
                assert(f1[i]);
                assert(p1.contains(x));
                let k = choose|k: int| 0 <= k < p1.len() && p1[k] == x;
                assert(r[k] == x);
            } else {
                let j = choose|j: int| 0 <= j < reached.len() && reached[j] == x;
                assert(f2[j]);
                assert(p2.contains(x));
                let k = choose|k: int| 0 <= k < p2.len() && p2[k] == x;
                assert(r[k + p1.len()] == x);
            }
        }
    }
    assert(r.to_set() =~= reached.to_set());
}

/// Associative recall lists every reached node once: in a valid graph, with distinct
/// seeds, the recall result (see [`MemoryGraphNexus::associative_recall`]) has no
/// duplicates and holds exactly the stored nodes within `h` hops of the stored seeds.
pub proof fn lemma_recall_lists_reached_once(g: &MemoryGraphNexus, seeds: Seq<Seq<char>>, h: nat)
    requires
        g.wf(),
        seeds.no_duplicates(),
    ensures
        ({
            let r = recall_order(seeds, reach_ids(g.spec_nodes(), g.spec_edges(), seeds, h));
            &&& r.no_duplicates()
            &&& r.to_set() == reach(g.spec_nodes(), g.spec_edges(), seeds, h)
        }),
{
    g.lemma_wf_nodes();
    let nodes = g.spec_nodes();
    let edges = g.spec_edges();
    let reached = reach_ids(nodes, edges, seeds, h);
    let flags = nodes.map_values(|m: MemoryNode| reach(nodes, edges, seeds, h).contains(m.id@));
    lemma_flagged_ids_sorted(nodes, flags);
    lemma_sorted_no_duplicates(reached);
    lemma_recall_order_lists_reached_once(seeds, reached);
    let ids = nodes.map_values(|m: MemoryNode| m.id@);
    let idx = lemma_mask_filter_indices(ids, flags);
    assert forall|x: Seq<char>| reached.to_set().contains(x) <==> reach(nodes, edges, seeds, h).contains(x) by {
        if reached.contains(x) {
            let k = choose|k: int| 0 <= k < reached.len() && reached[k] == x;
            assert(flags[idx[k]] && ids[idx[k]] == x);
        }
        if reach(nodes, edges, seeds, h).contains(x) {
            lemma_reach_in_nodes(nodes, edges, seeds, h, x);
            let i = choose|i: int| 0 <= i < nodes.len() && nodes[i].id@ == x;
            assert(flags[i]);
            let k = choose|k: int| 0 <= k < idx.len() && idx[k] == i;
            assert(reached[k] == x);
        }
    }
    assert(reached.to_set() =~= reach(nodes, edges, seeds, h));
}

/// In the default ontology the topological boost is symmetric: boosting `a` for a query in
/// `b` is the same as boosting `b` for a query in `a`.
pub proof fn lemma_default_boost_symmetric(t: Topology24Cell, a: u8, b: u8)
    requires
        is_default_ontology(t.spec_cells()),
    ensures
        boost_in(t.spec_cells(), a, b) == boost_in(t.spec_cells(), b, a),
{
    if neighbor_in(t.spec_cells(), a, b) {
        lemma_default_topology_symmetric(t, a, b);
    }
    if neighbor_in(t.spec_cells(), b, a) {
        lemma_default_topology_symmetric(t, b, a);
    }
}


/// Capacity eviction is least-recently-used among equals: an evicted node never has a
/// higher importance than a surviving ephemeral node, and at equal importance it was last
/// accessed earlier, or at the same tick with no more accesses. The access count only
/// breaks ties of recency.
pub proof fn lemma_eviction_lru_among_equals(
    old_g: MemoryGraphNexus,
    new_g: MemoryGraphNexus,
    max_nodes: usize,
    removed: nat,
    i: int,
    j: int,
)
    requires
        capacity_enforced(old_g, new_g, max_nodes, removed),
        0 <= i < old_g.spec_nodes().len(),
        0 <= j < old_g.spec_nodes().len(),
        !has_id(new_g.spec_nodes(), old_g.spec_nodes()[i].id@),
        has_id(new_g.spec_nodes(), old_g.spec_nodes()[j].id@),
        old_g.spec_nodes()[j].is_ephemeral,
    ensures
        ({
            let e = old_g.spec_nodes()[i];
            let s = old_g.spec_nodes()[j];
            &&& e.importance <= s.importance
            &&& e.importance == s.importance ==> (e.last_accessed_at < s.last_accessed_at || (e.last_accessed_at
                == s.last_accessed_at && e.access_count <= s.access_count))
        }),
{
}

/// A name wrapped in punctuation is still a name: when a word of a text is non-alphanumeric
/// characters, then an alphanumeric run that starts with an uppercase letter and takes at
/// least 3 bytes, then non-alphanumeric characters, with no apostrophe anywhere, the
/// entities of the text include that run ('"Meridian",' gives "Meridian").
pub proof fn lemma_entity_inside_punctuation(
    s: Seq<ClassifiedChar>,
    k: int,
    pre: Seq<ClassifiedChar>,
    run: Seq<ClassifiedChar>,
    post: Seq<ClassifiedChar>,
)
    requires
        0 <= k < words(s).len(),
        words(s)[k] == pre + run + post,
        forall|q: int| 0 <= q < pre.len() ==> !(#[trigger] pre[q]).2 && pre[q].0 != '\'',
        forall|q: int| 0 <= q < post.len() ==> !(#[trigger] post[q]).2 && post[q].0 != '\'',
        forall|q: int| 0 <= q < run.len() ==> (#[trigger] run[q]).2 && run[q].0 != '\'',
        run.len() > 0,
        run[0].3,
        vstd::utf8::encode_utf8(plain(run)).len() >= 3,
    ensures
        spec_entities_classified(s).contains(plain(run)),
{
    let w = pre + run + post;
    let n = w.len();
    let apos = |c: ClassifiedChar| c.0 == '\'';
    let alnum = |c: ClassifiedChar| c.2;
    assert forall|q: int| 0 <= q < n implies !apos(#[trigger] w[q]) by {
        if q < pre.len() {
            assert(w[q] == pre[q]);
        } else if q < pre.len() + run.len() {
            assert(w[q] == run[q - pre.len()]);
        } else {
            assert(w[q] == post[q - pre.len() - run.len()]);
        }
    }
    lemma_scan_until(w, 0, n as int, apos);
    assert(before_apostrophe(w) =~= w);
    let a = pre.len() as int;
    let b = a + run.len();
    assert forall|q: int| 0 <= q < a implies !alnum(#[trigger] w[q]) by {
        assert(w[q] == pre[q]);
    }
    assert(w[a] == run[0]);
    lemma_scan_until(w, 0, a, alnum);
    assert(lead(w) == a);
    assert forall|q: int| b <= q < n implies !alnum(#[trigger] w[q]) by {
        assert(w[q] == post[q - b]);
    }
    assert(w[b - 1] == run[run.len() - 1]);
    lemma_scan_back(w, n as int, b, a, alnum);
    assert(trimmed(w) =~= run);
    assert(token_of(w) == run);
    assert(is_entity(token_of(words(s)[k])));
}

/// Sensitive tags route to the private cluster: with no explicit cluster and a provenance
/// other than self-description, a fact carrying a tag that lowercases to "private",
/// "confidential" or "secret" lands in "private".
pub proof fn lemma_sensitive_tags_route_private(source_type: SourceType, tags: Seq<String>, t: int)
    requires
        !source_type.spec_is_self_description(),
        0 <= t < tags.len(),
        spec_to_lowercase(tags[t]@) == "private"@ || spec_to_lowercase(tags[t]@) == "confidential"@
            || spec_to_lowercase(tags[t]@) == "secret"@,
    ensures
        spec_infer_cluster(source_type, tags, None) == "private"@,
        spec_cluster_for(source_type, tags.map_values(|x: String| spec_to_lowercase(x@)), None) == "private"@,
{
    let lowered = tags.map_values(|x: String| spec_to_lowercase(x@));
    assert(lowered[t] == spec_to_lowercase(tags[t]@));
    assert(lowered.contains(lowered[t]));
}

/// The visible scope of a persona: the four public clusters and the persona's own always;
/// "system" exactly when asked for (or when it is the persona's name); "private" exactly
/// when asked for (or when it is the persona's name); nothing else.
pub proof fn lemma_scope_clusters(persona: Seq<char>, include_system: bool, include_private: bool, x: Seq<char>)
    ensures
        spec_scope_clusters(persona, include_system, include_private).contains(x) <==> (x == "shared"@ || x
            == "work"@ || x == "personal"@ || x == "project"@ || x == persona || (include_system && x == "system"@)
            || (include_private && x == "private"@)),
        spec_scope_clusters(persona, include_system, include_private).contains("private"@) <==> (include_private
            || persona == "private"@),
        spec_scope_clusters(persona, include_system, include_private).contains("system"@) <==> (include_system
            || persona == "system"@),
{
    reveal_strlit("shared");
    reveal_strlit("work");
    reveal_strlit("personal");
    reveal_strlit("project");
    reveal_strlit("system");
    reveal_strlit("private");
    assert("private"@.len() != "shared"@.len() && "private"@.len() != "work"@.len());
    assert("private"@[0] != "personal"@[0] || "private"@.len() != "personal"@.len());
    assert("private"@[2] != "project"@[2]);
    assert("private"@[0] != "system"@[0]);
    assert("system"@[0] != "work"@[0] && "system"@[0] != "personal"@[0] && "system"@[0] != "project"@[0]);
    assert("system"@.len() == "shared"@.len() && "system"@[1] != "shared"@[1]);
}

/// Recall quarantines only self-description: every candidate that clears the 0.25 cosine
/// floor and names a stored node of any other provenance is kept; everything kept is such
/// a candidate; and the kept candidates keep their order.
pub proof fn lemma_recall_keeps_every_admissible(nodes: Seq<MemoryNode>, candidates: Seq<VectorSearchResult>)
    ensures
        ({
            let r = spec_recall_candidates(nodes, candidates);
            let ok = |c: VectorSearchResult|
                spec_ge(c.score, 0x3e80_0000) && has_id(nodes, c.node_id@) && !node_of(
                    nodes,
                    c.node_id@,
                ).source_type.spec_is_self_description();
            exists|idx: Seq<int>|
                {
                    &&& idx.len() == r.len()
                    &&& forall|p: int| 0 <= p < idx.len() ==> 0 <= #[trigger] idx[p] < candidates.len() && r[p]
                        == candidates[idx[p]] && ok(r[p])
                    &&& forall|p: int, q: int| 0 <= p < q < idx.len() ==> #[trigger] idx[p] < #[trigger] idx[q]
                    &&& forall|i: int| 0 <= i < candidates.len() && ok(#[trigger] candidates[i]) ==> exists|p: int|
                        0 <= p < idx.len() && idx[p] == i
                }
        }),
{
    let keep = candidates.map_values(|c: VectorSearchResult| recall_admissible(nodes, c));
    let idx = lemma_mask_filter_indices(candidates, keep);
    let r = spec_recall_candidates(nodes, candidates);
    assert forall|i: int| 0 <= i < candidates.len() && #[trigger] keep[i] == recall_admissible(nodes, candidates[i]) implies true by {}
    assert forall|p: int| 0 <= p < idx.len() implies 0 <= #[trigger] idx[p] < candidates.len() && r[p] == candidates[idx[p]]
        && recall_admissible(nodes, r[p]) by {
        assert(keep[idx[p]]);
    }
    assert forall|i: int| 0 <= i < candidates.len() && recall_admissible(nodes, #[trigger] candidates[i]) implies exists|p: int|
        0 <= p < idx.len() && idx[p] == i by {
        assert(keep[i]);
    }
}


/// A possessive names its owner: when a word of a text is an alphanumeric run that starts
/// with an uppercase letter and takes at least 3 bytes, then an apostrophe and anything
/// after it, the entities of the text include the run ("Alex's" gives "Alex").
pub proof fn lemma_entity_before_apostrophe(
    s: Seq<ClassifiedChar>,
    k: int,
    run: Seq<ClassifiedChar>,
    apostrophe: ClassifiedChar,
    rest: Seq<ClassifiedChar>,
)
    requires
        0 <= k < words(s).len(),
        words(s)[k] == run.push(apostrophe) + rest,
        apostrophe.0 == '\'',
        forall|q: int| 0 <= q < run.len() ==> (#[trigger] run[q]).2 && run[q].0 != '\'',
        run.len() > 0,
        run[0].3,
        vstd::utf8::encode_utf8(plain(run)).len() >= 3,
    ensures
        spec_entities_classified(s).contains(plain(run)),
{
    let w = run.push(apostrophe) + rest;
    let m = run.len() as int;
    let apos = |c: ClassifiedChar| c.0 == '\'';
    let alnum = |c: ClassifiedChar| c.2;
    assert forall|q: int| 0 <= q < m implies !apos(#[trigger] w[q]) by {
        assert(w[q] == run[q]);
    }
    assert(w[m] == apostrophe);
    lemma_scan_until(w, 0, m, apos);
    assert(before_apostrophe(w) =~= run);
    lemma_scan_until(run, 0, 0, alnum);
    assert(lead(run) == 0);
    lemma_scan_back(run, m, m, 0, alnum);
    assert(trimmed(run) =~= run);
    assert(token_of(words(s)[k]) == run);
    assert(is_entity(token_of(words(s)[k])));
}

/// Cluster routing, in full: an explicit cluster wins; otherwise self-description goes to
/// "system"; otherwise the first group that a lowercased tag falls in decides, in the
/// order private (private, confidential, secret), personal (personal, family, home), work
/// (work, deadline, task), system (architecture, code, bug), project (project, goal,
/// milestone); with no such tag the fact is shared.
pub proof fn lemma_cluster_routing(source_type: SourceType, lowered: Seq<Seq<char>>, explicit: Option<Seq<char>>)
    ensures
        ({
            let has = |w: Seq<char>| exists|i: int| 0 <= i < lowered.len() && lowered[i] == w;
            let private = has("private"@) || has("confidential"@) || has("secret"@);
            let personal = has("personal"@) || has("family"@) || has("home"@);
            let work = has("work"@) || has("deadline"@) || has("task"@);
            let system = has("architecture"@) || has("code"@) || has("bug"@);
            let project = has("project"@) || has("goal"@) || has("milestone"@);
            let r = spec_cluster_for(source_type, lowered, explicit);
            &&& explicit is Some ==> r == explicit->0
            &&& explicit is None && source_type == SourceType::LlmSelfDescription ==> r == "system"@
            &&& explicit is None && source_type != SourceType::LlmSelfDescription ==> {
                &&& private ==> r == "private"@
                &&& !private && personal ==> r == "personal"@
                &&& !private && !personal && work ==> r == "work"@
                &&& !private && !personal && !work && system ==> r == "system"@
                &&& !private && !personal && !work && !system && project ==> r == "project"@
                &&& !private && !personal && !work && !system && !project ==> r == "shared"@
            }
        }),
{
    assert forall|w: Seq<char>| lowered.contains(w) <==> exists|i: int| 0 <= i < lowered.len() && lowered[i] == w by {
        if lowered.contains(w) {
            let i = choose|i: int| 0 <= i < lowered.len() && lowered[i] == w;
            assert(lowered[i] == w);
        }
    }
}

} // verus!
