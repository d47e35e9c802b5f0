//! Core memory graph: atomic memory nodes, undirected association edges, hyperedges,
//! and the retention rules (canon, provenance ceiling, human feedback).
//! Not internally synchronized: wrap it in a lock for concurrent use.
use vstd::prelude::*;
use crate::affect_overlay::AffectState;
use crate::canon::CanonLevel;
use crate::entities::{entities_of, spec_entities};
use crate::fbits::{count_bits, ge, spec_count_bits, spec_ge};
use crate::fround::{add_nonneg, lemma_sub_lowers, spec_add, spec_sub, sub_nonneg};
use crate::vector_index::VectorSearchResult;
use crate::ids::{format_hex16, hex16, splitmix_advance, splitmix_mix, splitmix_next, INITIAL_ID_SEED};
use crate::keys::{
    compare_keys, contains_string, lemma_count_distinct, lemma_sorted_no_duplicates, insert_sorted_unique, string_views, strings_sorted, id_lt, lemma_id_lt_asymmetric, lemma_id_lt_irreflexive, lemma_id_lt_transitive, str_equal, KeyOrder,
};
use crate::provenance::{spec_importance_cap, SourceType};
use crate::text::{spec_to_lowercase, to_lowercase};
use crate::util::{
    count_true, filter_by_mask, lemma_count_true_bound, lemma_count_true_mono, lemma_count_true_negation,
    lemma_count_true_set, lemma_count_false, lemma_mask_filter_all, lemma_mask_filter_indices, lemma_mask_filter_len, lemma_mask_filter_map,
    mask_filter,
};
use crate::topology_24cell::{is_default_ontology, StateCell, Topology24Cell};

verus! {

/// One atomic memory. `importance` and `confidence` are single-precision values carried as
/// their bit patterns (`f32::to_bits`).
#[derive(Debug, Clone)]
pub struct MemoryNode {
    pub id: String,
    pub content: String,
    pub summary: String,
    pub tags: Vec<String>,
    pub importance: u32,
    pub confidence: u32,
    pub source_type: SourceType,
    pub cluster_id: String,
    pub cell_id: u8,
    pub canon_level: CanonLevel,
    pub bridge_to_all: bool,
    pub is_ephemeral: bool,
    pub affect: AffectState,
    pub created_at: u64,
    pub last_accessed_at: u64,
    pub access_count: u32,
    /// Times a human confirmed this node was the right thing to recall. Never written by
    /// the engine's own behaviour.
    pub confirmations: u32,
    /// Times a human said the recall was wrong or irrelevant.
    pub rejections: u32,
}

/// An undirected association between two nodes; `weight` is an f32 carried as bits.
#[derive(Debug, Clone)]
pub struct MemoryEdge {
    pub id: String,
    pub source_id: String,
    pub target_id: String,
    /// "extractedTogether", "sameConversation", "relatedMeaning", "sharedEntity", ...
    pub relation_type: String,
    pub weight: u32,
}

/// A named group of nodes.
#[derive(Debug, Clone)]
pub struct HyperEdge {
    pub id: String,
    pub name: String,
    pub node_ids: Vec<String>,
    pub is_external: bool,
    pub cluster_ids: Vec<String>,
}

/// The mathematical content of an edge.
pub struct EdgeView {
    pub id: Seq<char>,
    pub source_id: Seq<char>,
    pub target_id: Seq<char>,
    pub relation_type: Seq<char>,
    pub weight: u32,
}

impl View for MemoryEdge {
    type V = EdgeView;

    open spec fn view(&self) -> EdgeView {
        EdgeView {
            id: self.id@,
            source_id: self.source_id@,
            target_id: self.target_id@,
            relation_type: self.relation_type@,
            weight: self.weight,
        }
    }
}

/// The views of a sequence of edges.
pub open spec fn edge_views(edges: Seq<MemoryEdge>) -> Seq<EdgeView> {
    edges.map_values(|e: MemoryEdge| e@)
}

/// Some node carries this id.
pub open spec fn has_id(nodes: Seq<MemoryNode>, id: Seq<char>) -> bool {
    exists|i: int| 0 <= i < nodes.len() && nodes[i].id@ == id
}

/// The node carrying this id (meaningful when [`has_id`]).
pub open spec fn node_of(nodes: Seq<MemoryNode>, id: Seq<char>) -> MemoryNode {
    nodes[choose|i: int| 0 <= i < nodes.len() && nodes[i].id@ == id]
}

/// Nodes are kept in strictly increasing id order (so ids are unique).
pub open spec fn nodes_sorted(nodes: Seq<MemoryNode>) -> bool {
    forall|i: int, j: int| 0 <= i < j < nodes.len() ==> id_lt(#[trigger] nodes[i].id@, #[trigger] nodes[j].id@)
}

/// Provenance ceiling and canon/ephemeral agreement of one node.
pub open spec fn node_valid(n: MemoryNode) -> bool {
    &&& n.importance <= spec_importance_cap(n.source_type)
    &&& n.is_ephemeral == !n.canon_level.spec_is_canon()
}

/// The edge joins `a` and `b`, in either direction.
pub open spec fn joins(e: EdgeView, a: Seq<char>, b: Seq<char>) -> bool {
    (e.source_id == a && e.target_id == b) || (e.source_id == b && e.target_id == a)
}

/// Some edge joins `a` and `b`.
pub open spec fn linked(edges: Seq<EdgeView>, a: Seq<char>, b: Seq<char>) -> bool {
    exists|k: int| 0 <= k < edges.len() && joins(edges[k], a, b)
}

/// Every edge joins two distinct stored nodes, and no pair is joined twice.
pub open spec fn edges_valid(nodes: Seq<MemoryNode>, edges: Seq<EdgeView>) -> bool {
    &&& forall|k: int|
        0 <= k < edges.len() ==> {
            &&& has_id(nodes, #[trigger] edges[k].source_id)
            &&& has_id(nodes, edges[k].target_id)
            &&& edges[k].source_id != edges[k].target_id
        }
    &&& forall|k: int, l: int|
        0 <= k < l < edges.len() ==> !joins(#[trigger] edges[l], #[trigger] edges[k].source_id, edges[k].target_id)
}

/// The invariant of a memory graph.
pub open spec fn graph_valid(nodes: Seq<MemoryNode>, edges: Seq<EdgeView>) -> bool {
    &&& nodes_sorted(nodes)
    &&& forall|i: int| 0 <= i < nodes.len() ==> node_valid(#[trigger] nodes[i])
    &&& edges_valid(nodes, edges)
}

/// Applies `f` to the node carrying `id`, leaving the others alone.
pub open spec fn update_where(
    nodes: Seq<MemoryNode>,
    id: Seq<char>,
    f: spec_fn(MemoryNode) -> MemoryNode,
) -> Seq<MemoryNode> {
    nodes.map_values(|n: MemoryNode| if n.id@ == id { f(n) } else { n })
}

/// In sorted nodes, the node found for an id is the one at its position.
pub proof fn lemma_node_of_at(nodes: Seq<MemoryNode>, i: int)
    requires
        nodes_sorted(nodes),
        0 <= i < nodes.len(),
    ensures
        has_id(nodes, nodes[i].id@),
        node_of(nodes, nodes[i].id@) == nodes[i],
{
    let j = choose|j: int| 0 <= j < nodes.len() && nodes[j].id@ == nodes[i].id@;
    if j < i {
        lemma_id_lt_asymmetric(nodes[j].id@, nodes[i].id@);
    } else if i < j {
        lemma_id_lt_asymmetric(nodes[i].id@, nodes[j].id@);
    }
}

/// In sorted nodes, only one position carries a given id.
pub proof fn lemma_ids_unique(nodes: Seq<MemoryNode>, i: int, j: int)
    requires
        nodes_sorted(nodes),
        0 <= i < nodes.len(),
        0 <= j < nodes.len(),
        nodes[i].id@ == nodes[j].id@,
    ensures
        i == j,
{
    if i < j {
        lemma_id_lt_asymmetric(nodes[i].id@, nodes[j].id@);
    } else if j < i {
        lemma_id_lt_asymmetric(nodes[j].id@, nodes[i].id@);
    }
}

/// The view of an optional string.
pub open spec fn opt_view(o: Option<&str>) -> Option<Seq<char>> {
    match o {
        Some(s) => Some(s@),
        None => None,
    }
}

/// Cluster routing given the lowercased tags: an explicit cluster wins; self-description
/// goes to "system"; then the first matching tag family decides, else "shared".
pub open spec fn spec_cluster_for(
    source_type: SourceType,
    lowered: Seq<Seq<char>>,
    explicit: Option<Seq<char>>,
) -> Seq<char> {
    let t = |w: Seq<char>| lowered.contains(w);
    if explicit is Some {
        explicit->0
    } else if source_type.spec_is_self_description() {
        "system"@
    } else if t("private"@) || t("confidential"@) || t("secret"@) {
        "private"@
    } else if t("personal"@) || t("family"@) || t("home"@) {
        "personal"@
    } else if t("work"@) || t("deadline"@) || t("task"@) {
        "work"@
    } else if t("architecture"@) || t("code"@) || t("bug"@) {
        "system"@
    } else if t("project"@) || t("goal"@) || t("milestone"@) {
        "project"@
    } else {
        "shared"@
    }
}

/// Cluster routing (see [`spec_cluster_for`]), with the tags compared lowercased.
pub open spec fn spec_infer_cluster(
    source_type: SourceType,
    tags: Seq<String>,
    explicit: Option<Seq<char>>,
) -> Seq<char> {
    spec_cluster_for(source_type, tags.map_values(|t: String| spec_to_lowercase(t@)), explicit)
}

/// Cluster routing given tags already lowercased (see [`spec_cluster_for`]).
pub fn cluster_for_lowered_tags(source_type: &SourceType, lowered: &[String], explicit_cluster: Option<&str>) -> (r: String)
    ensures
        r@ == spec_cluster_for(*source_type, string_views(lowered@), opt_view(explicit_cluster)),
{
    if let Some(cluster) = explicit_cluster {
        return cluster.to_owned();
    }
    if source_type.is_self_description() {
        return "system".to_owned();
    }
    let ghost lv = string_views(lowered@);
    assert forall|w: Seq<char>| lv.contains(w) == (exists|j: int| 0 <= j < lowered@.len() && #[trigger] lowered@[j]@ == w) by {
        if lv.contains(w) {
            let j = choose|j: int| 0 <= j < lv.len() && lv[j] == w;
            assert(lowered@[j]@ == w);
        }
        if exists|j: int| 0 <= j < lowered@.len() && #[trigger] lowered@[j]@ == w {
            let j = choose|j: int| 0 <= j < lowered@.len() && #[trigger] lowered@[j]@ == w;
            assert(lv[j] == w);
        }
    }
    if contains_string(lowered, "private") || contains_string(lowered, "confidential") || contains_string(lowered, "secret") {
        "private".to_owned()
    } else if contains_string(lowered, "personal") || contains_string(lowered, "family") || contains_string(lowered, "home") {
        "personal".to_owned()
    } else if contains_string(lowered, "work") || contains_string(lowered, "deadline") || contains_string(lowered, "task") {
        "work".to_owned()
    } else if contains_string(lowered, "architecture") || contains_string(lowered, "code") || contains_string(lowered, "bug") {
        "system".to_owned()
    } else if contains_string(lowered, "project") || contains_string(lowered, "goal") || contains_string(lowered, "milestone") {
        "project".to_owned()
    } else {
        "shared".to_owned()
    }
}

/// `add_edge` refuses self-links, links to missing nodes, and pairs already linked.
pub open spec fn edge_refused(
    nodes: Seq<MemoryNode>,
    edges: Seq<EdgeView>,
    source: Seq<char>,
    target: Seq<char>,
) -> bool {
    source == target || !has_id(nodes, source) || !has_id(nodes, target) || linked(
        edges,
        source,
        target,
    )
}

/// Edges and generator state after one `add_edge`.
pub open spec fn add_edge_model(
    nodes: Seq<MemoryNode>,
    edges: Seq<EdgeView>,
    seed: u64,
    source: Seq<char>,
    target: Seq<char>,
    relation: Seq<char>,
    weight: u32,
) -> (Seq<EdgeView>, u64) {
    if edge_refused(nodes, edges, source, target) {
        (edges, seed)
    } else {
        (
            edges.push(
                EdgeView {
                    id: next_id_spec(seed),
                    source_id: source,
                    target_id: target,
                    relation_type: relation,
                    weight,
                },
            ),
            splitmix_advance(seed),
        )
    }
}

/// Edges and generator state after `add_edge` on each pair in turn.
pub open spec fn link_all_model(
    nodes: Seq<MemoryNode>,
    edges: Seq<EdgeView>,
    seed: u64,
    pairs: Seq<(Seq<char>, Seq<char>, u32)>,
    relation: Seq<char>,
) -> (Seq<EdgeView>, u64)
    decreases pairs.len(),
{
    if pairs.len() == 0 {
        (edges, seed)
    } else {
        let prev = link_all_model(nodes, edges, seed, pairs.drop_last(), relation);
        let p = pairs.last();
        add_edge_model(nodes, prev.0, prev.1, p.0, p.1, relation, p.2)
    }
}

/// The views of candidate pairs.
pub open spec fn pair_views(pairs: Seq<(String, String, u32)>) -> Seq<(Seq<char>, Seq<char>, u32)> {
    pairs.map_values(|p: (String, String, u32)| (p.0@, p.1@, p.2))
}

/// The ids directly linked to `id`, in edge order (the other endpoint of each edge at `id`).
pub open spec fn neighbor_ids(edges: Seq<EdgeView>, id: Seq<char>) -> Seq<Seq<char>>
    decreases edges.len(),
{
    if edges.len() == 0 {
        Seq::empty()
    } else {
        let prev = neighbor_ids(edges.drop_last(), id);
        let e = edges.last();
        if e.source_id == id {
            prev.push(e.target_id)
        } else if e.target_id == id {
            prev.push(e.source_id)
        } else {
            prev
        }
    }
}

/// A recall touches the node: one more access (saturating) at clock tick `now`.
pub open spec fn touched(n: MemoryNode, now: u64) -> MemoryNode {
    MemoryNode {
        access_count: if n.access_count == u32::MAX { u32::MAX } else { (n.access_count + 1) as u32 },
        last_accessed_at: now,
        ..n
    }
}

/// `0.45f32`: the importance of a new node, before the provenance ceiling clamps it.
pub const INITIAL_IMPORTANCE: u32 = 0x3ee6_6666;

/// `0.80f32`: the confidence of a new node.
pub const INITIAL_CONFIDENCE: u32 = 0x3f4c_cccd;

/// `0.15f32`: what a human confirmation adds to importance.
pub const CONFIRM_STEP: u32 = 0x3e19_999a;

/// `0.20f32`: what a human rejection takes from importance.
pub const REJECT_STEP: u32 = 0x3e4c_cccd;

/// Feedback on a recall, in single precision: confirmation adds 0.15 to importance, then
/// clamps it to the provenance ceiling; rejection takes 0.20 away, then clamps it at 0.0.
/// The matching counter goes up (saturating).
pub open spec fn after_feedback(n: MemoryNode, helpful: bool) -> MemoryNode {
    let cap = spec_importance_cap(n.source_type);
    if helpful {
        let raised = spec_add(n.importance, CONFIRM_STEP);
        MemoryNode {
            confirmations: if n.confirmations == u32::MAX { u32::MAX } else { (n.confirmations + 1) as u32 },
            importance: if raised < cap { raised } else { cap },
            ..n
        }
    } else {
        MemoryNode {
            rejections: if n.rejections == u32::MAX { u32::MAX } else { (n.rejections + 1) as u32 },
            importance: if REJECT_STEP < n.importance { spec_sub(n.importance, REJECT_STEP) } else { 0 },
            ..n
        }
    }
}

/// The rejection step is worth more than 2^126 units (see [`crate::fround::units`]).
pub proof fn lemma_reject_step_units()
    ensures
        crate::fround::units(REJECT_STEP) == 13421773 * vstd::arithmetic::power2::pow2(123),
        vstd::arithmetic::power2::pow2(126) < crate::fround::units(REJECT_STEP),
        crate::fround::units(CONFIRM_STEP) == 10066330 * vstd::arithmetic::power2::pow2(123),
        vstd::arithmetic::power2::pow2(126) == 8 * vstd::arithmetic::power2::pow2(123),
{
    vstd::arithmetic::power2::lemma2_to64();
    vstd::arithmetic::power2::lemma_pow2_adds(123, 3);
    vstd::arithmetic::power2::lemma_pow2_pos(123);
    crate::fround::lemma_fields(124, 0x4c_cccd);
    crate::fround::lemma_fields(124, 0x19_999a);
    assert((124 * 0x80_0000 + 0x4c_cccd) as u32 == REJECT_STEP);
    assert((124 * 0x80_0000 + 0x19_999a) as u32 == CONFIRM_STEP);
}

/// A node that a promotion sweep makes canon: not canon yet, not self-description, and
/// confirmed often enough.
pub open spec fn promotable(n: MemoryNode, min_confirmations: u32) -> bool {
    !n.canon_level.spec_is_canon() && !n.source_type.spec_is_self_description()
        && n.confirmations >= min_confirmations
}

/// The node after promotion to `level`.
pub open spec fn promoted(n: MemoryNode, min_confirmations: u32, level: CanonLevel) -> MemoryNode {
    if promotable(n, min_confirmations) {
        MemoryNode { canon_level: level, is_ephemeral: false, ..n }
    } else {
        n
    }
}

/// How many nodes are promotable.
pub open spec fn count_promotable(nodes: Seq<MemoryNode>, min_confirmations: u32) -> nat
    decreases nodes.len(),
{
    if nodes.len() == 0 {
        0
    } else {
        count_promotable(nodes.drop_last(), min_confirmations) + if promotable(
            nodes.last(),
            min_confirmations,
        ) {
            1nat
        } else {
            0nat
        }
    }
}

/// How many nodes are canon (not ephemeral).
pub open spec fn count_canon(nodes: Seq<MemoryNode>) -> nat
    decreases nodes.len(),
{
    if nodes.len() == 0 {
        0
    } else {
        count_canon(nodes.drop_last()) + if !nodes.last().is_ephemeral {
            1nat
        } else {
            0nat
        }
    }
}

/// Updating the node at `i` is updating the node carrying its id.
pub proof fn lemma_update_where_at(
    nodes: Seq<MemoryNode>,
    i: int,
    f: spec_fn(MemoryNode) -> MemoryNode,
)
    requires
        nodes_sorted(nodes),
        0 <= i < nodes.len(),
    ensures
        update_where(nodes, nodes[i].id@, f) == nodes.update(i, f(nodes[i])),
{
    let id = nodes[i].id@;
    assert forall|j: int| 0 <= j < nodes.len() implies #[trigger] update_where(nodes, id, f)[j]
        == nodes.update(i, f(nodes[i]))[j] by {
        if j != i && nodes[j].id@ == id {
            lemma_ids_unique(nodes, i, j);
        }
    }
    assert(update_where(nodes, id, f) =~= nodes.update(i, f(nodes[i])));
}

/// Updating an absent id changes nothing.
pub proof fn lemma_update_where_absent(
    nodes: Seq<MemoryNode>,
    id: Seq<char>,
    f: spec_fn(MemoryNode) -> MemoryNode,
)
    requires
        !has_id(nodes, id),
    ensures
        update_where(nodes, id, f) == nodes,
{
    assert forall|j: int| 0 <= j < nodes.len() implies #[trigger] update_where(nodes, id, f)[j] == nodes[j] by {
        assert(nodes[j].id@ != id);
    }
    assert(update_where(nodes, id, f) =~= nodes);
}

/// Changing nodes without changing their ids keeps the graph valid, provided each
/// changed node is itself valid.
pub proof fn lemma_same_ids_valid(old_nodes: Seq<MemoryNode>, new_nodes: Seq<MemoryNode>, edges: Seq<EdgeView>)
    requires
        graph_valid(old_nodes, edges),
        new_nodes.len() == old_nodes.len(),
        forall|j: int| 0 <= j < new_nodes.len() ==> #[trigger] new_nodes[j].id@ == old_nodes[j].id@,
        forall|j: int| 0 <= j < new_nodes.len() ==> node_valid(#[trigger] new_nodes[j]),
    ensures
        graph_valid(new_nodes, edges),
{
    assert forall|a: int, b: int| 0 <= a < b < new_nodes.len() implies id_lt(#[trigger] new_nodes[a].id@, #[trigger] new_nodes[b].id@) by {
        assert(id_lt(old_nodes[a].id@, old_nodes[b].id@));
    }
    assert forall|x: Seq<char>| has_id(old_nodes, x) implies has_id(new_nodes, x) by {
        let j = choose|j: int| 0 <= j < old_nodes.len() && old_nodes[j].id@ == x;
        assert(new_nodes[j].id@ == x);
    }
}

/// Facts about `new_nodes` that make it `old_nodes` with `node` stored under its id.
pub open spec fn stores_node(old_nodes: Seq<MemoryNode>, new_nodes: Seq<MemoryNode>, node: MemoryNode) -> bool {
    &&& nodes_sorted(new_nodes)
    &&& has_id(new_nodes, node.id@)
    &&& node_of(new_nodes, node.id@) == node
    &&& forall|x: Seq<char>|
        x != node.id@ ==> {
            &&& has_id(new_nodes, x) == has_id(old_nodes, x)
            &&& has_id(old_nodes, x) ==> node_of(new_nodes, x) == node_of(old_nodes, x)
        }
    &&& forall|i: int| 0 <= i < new_nodes.len() ==> (#[trigger] new_nodes[i] == node || exists|j: int| 0 <= j < old_nodes.len() && old_nodes[j] == new_nodes[i])
}

/// Replacing the node at `i` by one with the same id.
pub proof fn lemma_replace_at(old_nodes: Seq<MemoryNode>, i: int, node: MemoryNode)
    requires
        nodes_sorted(old_nodes),
        0 <= i < old_nodes.len(),
        old_nodes[i].id@ == node.id@,
    ensures
        stores_node(old_nodes, old_nodes.update(i, node), node),
{
    let new_nodes = old_nodes.update(i, node);
    let id = node.id@;
    assert forall|a: int, b: int| 0 <= a < b < new_nodes.len() implies id_lt(#[trigger] new_nodes[a].id@, #[trigger] new_nodes[b].id@) by {
        assert(old_nodes[a].id@ == new_nodes[a].id@);
        assert(old_nodes[b].id@ == new_nodes[b].id@);
    }
    lemma_node_of_at(new_nodes, i);
    assert forall|x: Seq<char>| x != id implies {
        &&& has_id(new_nodes, x) == has_id(old_nodes, x)
        &&& has_id(old_nodes, x) ==> node_of(new_nodes, x) == node_of(old_nodes, x)
    } by {
        if has_id(old_nodes, x) {
            let j = choose|j: int| 0 <= j < old_nodes.len() && old_nodes[j].id@ == x;
            assert(new_nodes[j] == old_nodes[j]);
            lemma_node_of_at(old_nodes, j);
            lemma_node_of_at(new_nodes, j);
        }
        if has_id(new_nodes, x) {
            let j = choose|j: int| 0 <= j < new_nodes.len() && new_nodes[j].id@ == x;
            assert(new_nodes[j] == old_nodes[j]);
        }
    }
    assert forall|k: int| 0 <= k < new_nodes.len() implies (#[trigger] new_nodes[k] == node || exists|j: int| 0 <= j < old_nodes.len() && old_nodes[j] == new_nodes[k]) by {
        if k != i {
            assert(old_nodes[k] == new_nodes[k]);
        }
    }
}

/// Inserting a node at the position that keeps ids increasing.
pub proof fn lemma_insert_at(old_nodes: Seq<MemoryNode>, p: int, node: MemoryNode)
    requires
        nodes_sorted(old_nodes),
        0 <= p <= old_nodes.len(),
        forall|j: int| 0 <= j < p ==> id_lt(#[trigger] old_nodes[j].id@, node.id@),
        forall|j: int| p <= j < old_nodes.len() ==> id_lt(node.id@, #[trigger] old_nodes[j].id@),
    ensures
        stores_node(old_nodes, old_nodes.insert(p, node), node),
{
    let new_nodes = old_nodes.insert(p, node);
    let id = node.id@;
    assert(new_nodes[p] == node);
    assert forall|a: int, b: int| 0 <= a < b < new_nodes.len() implies id_lt(#[trigger] new_nodes[a].id@, #[trigger] new_nodes[b].id@) by {
        if b < p {
            assert(new_nodes[a] == old_nodes[a]);
            assert(new_nodes[b] == old_nodes[b]);
        } else if b == p {
            assert(new_nodes[a] == old_nodes[a]);
        } else if a == p {
            assert(new_nodes[b] == old_nodes[b - 1]);
        } else if a < p {
            assert(new_nodes[a] == old_nodes[a]);
            assert(new_nodes[b] == old_nodes[b - 1]);
            lemma_id_lt_transitive(old_nodes[a].id@, id, old_nodes[b - 1].id@);
        } else {
            assert(new_nodes[a] == old_nodes[a - 1]);
            assert(new_nodes[b] == old_nodes[b - 1]);
        }
    }
    lemma_node_of_at(new_nodes, p);
    assert forall|x: Seq<char>| x != id implies {
        &&& has_id(new_nodes, x) == has_id(old_nodes, x)
        &&& has_id(old_nodes, x) ==> node_of(new_nodes, x) == node_of(old_nodes, x)
    } by {
        if has_id(old_nodes, x) {
            let j = choose|j: int| 0 <= j < old_nodes.len() && old_nodes[j].id@ == x;
            let k = if j < p { j } else { j + 1 };
            assert(new_nodes[k] == old_nodes[j]);
            lemma_node_of_at(old_nodes, j);
            lemma_node_of_at(new_nodes, k);
        }
        if has_id(new_nodes, x) {
            let k = choose|k: int| 0 <= k < new_nodes.len() && new_nodes[k].id@ == x;
            if k < p {
                assert(new_nodes[k] == old_nodes[k]);
            } else if k > p {
                assert(new_nodes[k] == old_nodes[k - 1]);
            }
        }
    }
    assert forall|k: int| 0 <= k < new_nodes.len() implies (#[trigger] new_nodes[k] == node || exists|j: int| 0 <= j < old_nodes.len() && old_nodes[j] == new_nodes[k]) by {
        if k < p {
            assert(old_nodes[k] == new_nodes[k]);
        } else if k > p {
            assert(old_nodes[k - 1] == new_nodes[k]);
        }
    }
}

/// Storing a valid node keeps the graph valid.
pub proof fn lemma_stores_node_valid(old_nodes: Seq<MemoryNode>, new_nodes: Seq<MemoryNode>, node: MemoryNode, edges: Seq<EdgeView>)
    requires
        graph_valid(old_nodes, edges),
        node_valid(node),
        stores_node(old_nodes, new_nodes, node),
    ensures
        graph_valid(new_nodes, edges),
{
    assert forall|i: int| 0 <= i < new_nodes.len() implies node_valid(#[trigger] new_nodes[i]) by {
        if new_nodes[i] != node {
            let j = choose|j: int| 0 <= j < old_nodes.len() && old_nodes[j] == new_nodes[i];
        }
    }
    assert forall|y: Seq<char>| has_id(old_nodes, y) implies has_id(new_nodes, y) by {
        if y != node.id@ {
            assert(has_id(new_nodes, y) == has_id(old_nodes, y));
        }
    }
    assert forall|k: int| 0 <= k < edges.len() implies {
        &&& has_id(new_nodes, #[trigger] edges[k].source_id)
        &&& has_id(new_nodes, edges[k].target_id)
        &&& edges[k].source_id != edges[k].target_id
    } by {
        assert(has_id(old_nodes, edges[k].source_id));
        assert(has_id(old_nodes, edges[k].target_id));
    }
}

/// The clusters visible to a persona.
pub open spec fn spec_scope_clusters(persona: Seq<char>, include_system: bool, include_private: bool) -> Set<Seq<char>> {
    let base = set!["shared"@, "work"@, "personal"@, "project"@, persona];
    let with_system = if include_system { base.insert("system"@) } else { base };
    if include_private { with_system.insert("private"@) } else { with_system }
}

/// `a` is less valuable than `b`: lower importance, then older last access, then fewer
/// accesses, then (as a stable order over ids) the smaller id.
pub open spec fn less_valuable(a: MemoryNode, b: MemoryNode) -> bool {
    ||| a.importance < b.importance
    ||| a.importance == b.importance && a.last_accessed_at < b.last_accessed_at
    ||| a.importance == b.importance && a.last_accessed_at == b.last_accessed_at && a.access_count
        < b.access_count
    ||| a.importance == b.importance && a.last_accessed_at == b.last_accessed_at && a.access_count
        == b.access_count && id_lt(a.id@, b.id@)
}

pub proof fn lemma_less_valuable_transitive(a: MemoryNode, b: MemoryNode, c: MemoryNode)
    requires
        less_valuable(a, b),
        less_valuable(b, c),
    ensures
        less_valuable(a, c),
{
    if a.importance == b.importance && b.importance == c.importance && a.last_accessed_at
        == b.last_accessed_at && b.last_accessed_at == c.last_accessed_at && a.access_count
        == b.access_count && b.access_count == c.access_count {
        lemma_id_lt_transitive(a.id@, b.id@, c.id@);
    }
}

pub proof fn lemma_less_valuable_total(a: MemoryNode, b: MemoryNode)
    requires
        a.id@ != b.id@,
    ensures
        less_valuable(a, b) || less_valuable(b, a),
{
    crate::keys::lemma_id_lt_total(a.id@, b.id@);
}


/// `s` lists node positions from the least to the most valuable node.
pub open spec fn value_ranked(nodes: Seq<MemoryNode>, s: Seq<usize>) -> bool {
    forall|p: int, q: int| 0 <= p < q < s.len() ==> less_valuable(nodes[#[trigger] s[p] as int], nodes[#[trigger] s[q] as int])
}

/// Merges two position lists, each ordered by value, with no position in both.
fn merge_by_value(nodes: &Vec<MemoryNode>, a: Vec<usize>, b: Vec<usize>) -> (r: Vec<usize>)
    requires
        nodes_sorted(nodes@),
        value_ranked(nodes@, a@),
        value_ranked(nodes@, b@),
        forall|x: int, y: int| 0 <= x < a@.len() && 0 <= y < b@.len() ==> #[trigger] a@[x] != #[trigger] b@[y],
        forall|x: int| 0 <= x < a@.len() ==> #[trigger] a@[x] < nodes@.len(),
        forall|y: int| 0 <= y < b@.len() ==> #[trigger] b@[y] < nodes@.len(),
    ensures
        value_ranked(nodes@, r@),
        r@.len() == a@.len() + b@.len(),
        forall|v: usize| r@.contains(v) <==> (a@.contains(v) || b@.contains(v)),
{
    let mut r: Vec<usize> = Vec::new();
    let mut i: usize = 0;
    let mut j: usize = 0;
    while i < a.len() || j < b.len()
        invariant
            nodes_sorted(nodes@),
            value_ranked(nodes@, a@),
            value_ranked(nodes@, b@),
            forall|x: int, y: int| 0 <= x < a@.len() && 0 <= y < b@.len() ==> #[trigger] a@[x] != #[trigger] b@[y],
            forall|x: int| 0 <= x < a@.len() ==> #[trigger] a@[x] < nodes@.len(),
            forall|y: int| 0 <= y < b@.len() ==> #[trigger] b@[y] < nodes@.len(),
            i <= a@.len(),
            j <= b@.len(),
            r@.len() == i + j,
            value_ranked(nodes@, r@),
            forall|v: usize| r@.contains(v) <==> (a@.subrange(0, i as int).contains(v) || b@.subrange(0, j as int).contains(v)),
            forall|p: int, x: int|
                0 <= p < r@.len() && i <= x < a@.len() ==> less_valuable(nodes@[#[trigger] r@[p] as int], nodes@[#[trigger] a@[x] as int]),
            forall|p: int, y: int|
                0 <= p < r@.len() && j <= y < b@.len() ==> less_valuable(nodes@[#[trigger] r@[p] as int], nodes@[#[trigger] b@[y] as int]),
        decreases a@.len() + b@.len() - i - j,
    {
        let take_a = if i < a.len() && j < b.len() {
            is_less_valuable(&nodes[a[i]], &nodes[b[j]])
        } else {
            i < a.len()
        };
        let ghost old_r = r@;
        let ghost ns = nodes@;
        if take_a {
            let x = a[i];
            r.push(x);
            proof {
                assert forall|y: int| j <= y < b@.len() implies less_valuable(ns[x as int], ns[#[trigger] b@[y] as int]) by {
                    if y > j {
                        lemma_less_valuable_transitive(ns[x as int], ns[b@[j as int] as int], ns[b@[y] as int]);
                    }
                }
                assert forall|p: int, q: int| 0 <= p < q < r@.len() implies less_valuable(ns[#[trigger] r@[p] as int], ns[#[trigger] r@[q] as int]) by {
                    if q < old_r.len() {
                        assert(r@[p] == old_r[p] && r@[q] == old_r[q]);
                    } else {
                        assert(r@[p] == old_r[p]);
                    }
                }
                assert forall|v: usize| r@.contains(v) <==> (a@.subrange(0, i + 1).contains(v) || b@.subrange(0, j as int).contains(v)) by {
                    let sa0 = a@.subrange(0, i as int);
                    let sa1 = a@.subrange(0, i + 1);
                    let sb0 = b@.subrange(0, j as int);
                    if r@.contains(v) {
                        if v == x {
                            assert(sa1[i as int] == v);
                        } else {
                            let p = choose|p: int| 0 <= p < r@.len() && r@[p] == v;
                            assert(old_r[p] == v);
                            assert(old_r.contains(v));
                            if sa0.contains(v) {
                                let q = choose|q: int| 0 <= q < sa0.len() && sa0[q] == v;
                                assert(sa1[q] == v);
                            }
                        }
                    }
                    if sa1.contains(v) || sb0.contains(v) {
                        if v == x {
                            assert(r@[old_r.len() as int] == v);
                        } else {
                            if sa1.contains(v) {
                                let q = choose|q: int| 0 <= q < sa1.len() && sa1[q] == v;
                                assert(sa0[q] == v);
                                assert(sa0.contains(v));
                            }
                            assert(old_r.contains(v));
                            let p = choose|p: int| 0 <= p < old_r.len() && old_r[p] == v;
                            assert(r@[p] == v);
                        }
                    }
                }
                assert forall|p: int, x2: int|
                    0 <= p < r@.len() && i + 1 <= x2 < a@.len() implies less_valuable(ns[#[trigger] r@[p] as int], ns[#[trigger] a@[x2] as int]) by {
                    if p < old_r.len() {
                        assert(r@[p] == old_r[p]);
                    }
                }
                assert forall|p: int, y: int|
                    0 <= p < r@.len() && j <= y < b@.len() implies less_valuable(ns[#[trigger] r@[p] as int], ns[#[trigger] b@[y] as int]) by {
                    if p < old_r.len() {
                        assert(r@[p] == old_r[p]);
                    }
                }
            }
            i = i + 1;
        } else {
            let y = b[j];
            r.push(y);
            proof {
                if i < a@.len() {
                    let ax = a@[i as int];
                    assert(ax != y);
                    if ns[ax as int].id@ == ns[y as int].id@ {
                        lemma_ids_unique(ns, ax as int, y as int);
                    }
                    lemma_less_valuable_total(ns[ax as int], ns[y as int]);
                }
                assert forall|x2: int| i <= x2 < a@.len() implies less_valuable(ns[y as int], ns[#[trigger] a@[x2] as int]) by {
                    if x2 > i {
                        lemma_less_valuable_transitive(ns[y as int], ns[a@[i as int] as int], ns[a@[x2] as int]);
                    }
                }
                assert forall|p: int, q: int| 0 <= p < q < r@.len() implies less_valuable(ns[#[trigger] r@[p] as int], ns[#[trigger] r@[q] as int]) by {
                    if q < old_r.len() {
                        assert(r@[p] == old_r[p] && r@[q] == old_r[q]);
                    } else {
                        assert(r@[p] == old_r[p]);
                    }
                }
                assert forall|v: usize| r@.contains(v) <==> (a@.subrange(0, i as int).contains(v) || b@.subrange(0, j + 1).contains(v)) by {
                    let sb0 = b@.subrange(0, j as int);
                    let sb1 = b@.subrange(0, j + 1);
                    let sa0 = a@.subrange(0, i as int);
                    if r@.contains(v) {
                        if v == y {
                            assert(sb1[j as int] == v);
                        } else {
                            let p = choose|p: int| 0 <= p < r@.len() && r@[p] == v;
                            assert(old_r[p] == v);
                            assert(old_r.contains(v));
                            if sb0.contains(v) {
                                let q = choose|q: int| 0 <= q < sb0.len() && sb0[q] == v;
                                assert(sb1[q] == v);
                            }
                        }
                    }
                    if sa0.contains(v) || sb1.contains(v) {
                        if v == y {
                            assert(r@[old_r.len() as int] == v);
                        } else {
                            if sb1.contains(v) {
                                let q = choose|q: int| 0 <= q < sb1.len() && sb1[q] == v;
                                assert(sb0[q] == v);
                                assert(sb0.contains(v));
                            }
                            assert(old_r.contains(v));
                            let p = choose|p: int| 0 <= p < old_r.len() && old_r[p] == v;
                            assert(r@[p] == v);
                        }
                    }
                }
                assert forall|p: int, x2: int|
                    0 <= p < r@.len() && i <= x2 < a@.len() implies less_valuable(ns[#[trigger] r@[p] as int], ns[#[trigger] a@[x2] as int]) by {
                    if p < old_r.len() {
                        assert(r@[p] == old_r[p]);
                    }
                }
                assert forall|p: int, y2: int|
                    0 <= p < r@.len() && j + 1 <= y2 < b@.len() implies less_valuable(ns[#[trigger] r@[p] as int], ns[#[trigger] b@[y2] as int]) by {
                    if p < old_r.len() {
                        assert(r@[p] == old_r[p]);
                    }
                }
            }
            j = j + 1;
        }
    }
    proof {
        assert(a@.subrange(0, i as int) =~= a@);
        assert(b@.subrange(0, j as int) =~= b@);
    }
    r
}

/// The ephemeral positions among `lo..hi`, from the least to the most valuable node.
fn eviction_order(nodes: &Vec<MemoryNode>, lo: usize, hi: usize) -> (r: Vec<usize>)
    requires
        nodes_sorted(nodes@),
        lo <= hi <= nodes@.len(),
    ensures
        value_ranked(nodes@, r@),
        forall|t: int| 0 <= t < r@.len() ==> lo <= #[trigger] r@[t] < hi && nodes@[r@[t] as int].is_ephemeral,
        forall|v: usize| lo <= v < hi && nodes@[v as int].is_ephemeral ==> r@.contains(v),
    decreases hi - lo,
{
    if hi - lo == 0 {
        Vec::new()
    } else if hi - lo == 1 {
        if nodes[lo].is_ephemeral {
            let r = vec![lo];
            assert(r@[0] == lo);
            r
        } else {
            Vec::new()
        }
    } else {
        let mid = lo + (hi - lo) / 2;
        let a = eviction_order(nodes, lo, mid);
        let b = eviction_order(nodes, mid, hi);
        let r = merge_by_value(nodes, a, b);
        proof {
            assert forall|t: int| 0 <= t < r@.len() implies lo <= #[trigger] r@[t] < hi && nodes@[r@[t] as int].is_ephemeral by {
                assert(r@.contains(r@[t]));
                if a@.contains(r@[t]) {
                    let x = choose|x: int| 0 <= x < a@.len() && a@[x] == r@[t];
                } else {
                    let y = choose|y: int| 0 <= y < b@.len() && b@[y] == r@[t];
                }
            }
            assert forall|v: usize| lo <= v < hi && nodes@[v as int].is_ephemeral implies r@.contains(v) by {
                if v < mid {
                    assert(a@.contains(v));
                } else {
                    assert(b@.contains(v));
                }
            }
        }
        r
    }
}

/// The ephemeral flag of each node.
pub open spec fn ephemeral_flags(nodes: Seq<MemoryNode>) -> Seq<bool> {
    nodes.map_values(|n: MemoryNode| n.is_ephemeral)
}

/// The edges whose both endpoints are stored in `nodes`, in order.
pub open spec fn edges_among(edges: Seq<EdgeView>, nodes: Seq<MemoryNode>) -> Seq<EdgeView> {
    mask_filter(
        edges,
        edges.map_values(|e: EdgeView| has_id(nodes, e.source_id) && has_id(nodes, e.target_id)),
    )
}

/// How many nodes `enforce_capacity(max_nodes)` evicts: enough to get down to
/// `max_nodes`, but never more than the ephemeral nodes.
pub open spec fn eviction_count(nodes: Seq<MemoryNode>, max_nodes: usize) -> nat {
    if nodes.len() <= max_nodes {
        0
    } else {
        let want = (nodes.len() - max_nodes) as nat;
        let e = count_true(ephemeral_flags(nodes));
        if want < e { want } else { e }
    }
}

/// Exec order on node value.
fn is_less_valuable(a: &MemoryNode, b: &MemoryNode) -> (r: bool)
    ensures
        r == less_valuable(*a, *b),
{
    if a.importance != b.importance {
        a.importance < b.importance
    } else if a.last_accessed_at != b.last_accessed_at {
        a.last_accessed_at < b.last_accessed_at
    } else if a.access_count != b.access_count {
        a.access_count < b.access_count
    } else {
        match compare_keys(a.id.as_str(), b.id.as_str()) {
            KeyOrder::Less => true,
            _ => false,
        }
    }
}

/// Filtering sorted nodes by a mask: the result is sorted, carries exactly the kept ids,
/// and finds the same node for each.
pub proof fn lemma_filter_nodes(old_nodes: Seq<MemoryNode>, keep: Seq<bool>)
    requires
        nodes_sorted(old_nodes),
        keep.len() == old_nodes.len(),
        forall|i: int| 0 <= i < old_nodes.len() ==> node_valid(#[trigger] old_nodes[i]),
    ensures
        ({
            let new_nodes = mask_filter(old_nodes, keep);
            &&& nodes_sorted(new_nodes)
            &&& forall|i: int| 0 <= i < new_nodes.len() ==> node_valid(#[trigger] new_nodes[i])
            &&& forall|i: int| 0 <= i < old_nodes.len() ==> (has_id(new_nodes, #[trigger] old_nodes[i].id@) <==> keep[i])
            &&& forall|x: Seq<char>| has_id(new_nodes, x) ==> has_id(old_nodes, x) && node_of(new_nodes, x) == node_of(old_nodes, x)
        }),
{
    let new_nodes = mask_filter(old_nodes, keep);
    let idx = lemma_mask_filter_indices(old_nodes, keep);
    assert forall|a: int, b: int| 0 <= a < b < new_nodes.len() implies id_lt(#[trigger] new_nodes[a].id@, #[trigger] new_nodes[b].id@) by {
        assert(idx[a] < idx[b]);
    }
    assert forall|i: int| 0 <= i < new_nodes.len() implies node_valid(#[trigger] new_nodes[i]) by {
        assert(new_nodes[i] == old_nodes[idx[i]]);
    }
    assert forall|i: int| 0 <= i < old_nodes.len() implies (has_id(new_nodes, #[trigger] old_nodes[i].id@) <==> keep[i]) by {
        if keep[i] {
            let k = choose|k: int| 0 <= k < idx.len() && idx[k] == i;
            assert(new_nodes[k] == old_nodes[i]);
        }
        if has_id(new_nodes, old_nodes[i].id@) {
            let k = choose|k: int| 0 <= k < new_nodes.len() && new_nodes[k].id@ == old_nodes[i].id@;
            assert(new_nodes[k] == old_nodes[idx[k]]);
            lemma_ids_unique(old_nodes, idx[k], i);
        }
    }
    assert forall|x: Seq<char>| has_id(new_nodes, x) implies has_id(old_nodes, x) && node_of(new_nodes, x) == node_of(old_nodes, x) by {
        let k = choose|k: int| 0 <= k < new_nodes.len() && new_nodes[k].id@ == x;
        assert(new_nodes[k] == old_nodes[idx[k]]);
        lemma_node_of_at(new_nodes, k);
        lemma_node_of_at(old_nodes, idx[k]);
    }
}

/// Keeping exactly the edges among the surviving nodes keeps the edges valid.
pub proof fn lemma_filter_edges(old_nodes: Seq<MemoryNode>, new_nodes: Seq<MemoryNode>, edges: Seq<EdgeView>, keep: Seq<bool>)
    requires
        edges_valid(old_nodes, edges),
        keep.len() == edges.len(),
        forall|k: int| 0 <= k < edges.len() ==> #[trigger] keep[k] == (has_id(new_nodes, edges[k].source_id) && has_id(new_nodes, edges[k].target_id)),
    ensures
        mask_filter(edges, keep) == edges_among(edges, new_nodes),
        edges_valid(new_nodes, mask_filter(edges, keep)),
{
    let flags = edges.map_values(|e: EdgeView| has_id(new_nodes, e.source_id) && has_id(new_nodes, e.target_id));
    assert(keep =~= flags);
    let ne = mask_filter(edges, keep);
    let idx = lemma_mask_filter_indices(edges, keep);
    assert forall|k: int| 0 <= k < ne.len() implies {
        &&& has_id(new_nodes, #[trigger] ne[k].source_id)
        &&& has_id(new_nodes, ne[k].target_id)
        &&& ne[k].source_id != ne[k].target_id
    } by {
        assert(ne[k] == edges[idx[k]]);
        assert(keep[idx[k]]);
    }
    assert forall|k: int, l: int| 0 <= k < l < ne.len() implies !joins(#[trigger] ne[l], #[trigger] ne[k].source_id, ne[k].target_id) by {
        assert(idx[k] < idx[l]);
        assert(ne[k] == edges[idx[k]]);
        assert(ne[l] == edges[idx[l]]);
    }
}

/// The ids within `h` hops of the stored seeds: the stored seeds, then anything linked to
/// an id already reached.
pub open spec fn reach(nodes: Seq<MemoryNode>, edges: Seq<EdgeView>, seeds: Seq<Seq<char>>, h: nat) -> Set<Seq<char>>
    decreases h,
{
    if h == 0 {
        Set::new(|x: Seq<char>| has_id(nodes, x) && seeds.contains(x))
    } else {
        let r = reach(nodes, edges, seeds, (h - 1) as nat);
        Set::new(|y: Seq<char>| r.contains(y) || exists|x: Seq<char>| r.contains(x) && linked(edges, x, y))
    }
}

/// Once a hop adds nothing, further hops add nothing.
pub proof fn lemma_reach_stable(nodes: Seq<MemoryNode>, edges: Seq<EdgeView>, seeds: Seq<Seq<char>>, h: nat, m: nat)
    requires
        reach(nodes, edges, seeds, h + 1) == reach(nodes, edges, seeds, h),
        h <= m,
    ensures
        reach(nodes, edges, seeds, m) == reach(nodes, edges, seeds, h),
    decreases m - h,
{
    if m > h {
        lemma_reach_stable(nodes, edges, seeds, h, (m - 1) as nat);
        assert(reach(nodes, edges, seeds, m) =~= reach(nodes, edges, seeds, (m - 1) as nat)) by {
            assert(reach(nodes, edges, seeds, m) =~= reach(nodes, edges, seeds, h + 1));
        }
    }
}

/// The ids of the nodes at flagged positions, in node order.
pub open spec fn flagged_ids(nodes: Seq<MemoryNode>, flags: Seq<bool>) -> Seq<Seq<char>> {
    mask_filter(nodes.map_values(|n: MemoryNode| n.id@), flags)
}

/// The reached ids in node (id) order.
pub open spec fn reach_ids(nodes: Seq<MemoryNode>, edges: Seq<EdgeView>, seeds: Seq<Seq<char>>, h: nat) -> Seq<Seq<char>> {
    flagged_ids(nodes, nodes.map_values(|m: MemoryNode| reach(nodes, edges, seeds, h).contains(m.id@)))
}

/// Associative recall order: the seeds that were reached, in seed order, then the other
/// reached ids in id order.
pub open spec fn recall_order(seeds: Seq<Seq<char>>, reached: Seq<Seq<char>>) -> Seq<Seq<char>> {
    mask_filter(seeds, seeds.map_values(|x: Seq<char>| reached.contains(x)))
        + mask_filter(reached, reached.map_values(|x: Seq<char>| !seeds.contains(x)))
}

/// Reached ids are stored ids (edges only join stored nodes).
pub proof fn lemma_reach_in_nodes(nodes: Seq<MemoryNode>, edges: Seq<EdgeView>, seeds: Seq<Seq<char>>, h: nat, y: Seq<char>)
    requires
        edges_valid(nodes, edges),
        reach(nodes, edges, seeds, h).contains(y),
    ensures
        has_id(nodes, y),
    decreases h,
{
    if h > 0 {
        let r = reach(nodes, edges, seeds, (h - 1) as nat);
        if r.contains(y) {
            lemma_reach_in_nodes(nodes, edges, seeds, (h - 1) as nat, y);
        } else {
            let x = choose|x: Seq<char>| r.contains(x) && linked(edges, x, y);
            let k = choose|k: int| 0 <= k < edges.len() && joins(edges[k], x, y);
            assert(has_id(nodes, edges[k].source_id));
            assert(has_id(nodes, edges[k].target_id));
        }
    }
}

/// Flagged ids of sorted nodes are sorted.
pub proof fn lemma_flagged_ids_sorted(nodes: Seq<MemoryNode>, flags: Seq<bool>)
    requires
        nodes_sorted(nodes),
        flags.len() == nodes.len(),
    ensures
        strings_sorted(flagged_ids(nodes, flags)),
{
    let ids = nodes.map_values(|m: MemoryNode| m.id@);
    let out = flagged_ids(nodes, flags);
    let idx = lemma_mask_filter_indices(ids, flags);
    assert forall|a: int, b: int| 0 <= a < b < out.len() implies id_lt(#[trigger] out[a], #[trigger] out[b]) by {
        assert(idx[a] < idx[b]);
        assert(out[a] == nodes[idx[a]].id@);
        assert(out[b] == nodes[idx[b]].id@);
    }
}

/// One breadth-first layer: the layer adds the neighbors of the frontier, which are the
/// neighbors of everything reached, so the reached set advances one hop.
pub proof fn lemma_bfs_step(
    nodes: Seq<MemoryNode>,
    edges: Seq<EdgeView>,
    seeds: Seq<Seq<char>>,
    h: nat,
    old_seen: Seq<bool>,
    new_seen: Seq<bool>,
    frontier: Seq<bool>,
    ends: Seq<(usize, usize)>,
)
    requires
        graph_valid(nodes, edges),
        old_seen.len() == nodes.len(),
        new_seen.len() == nodes.len(),
        frontier.len() == nodes.len(),
        ends.len() == edges.len(),
        forall|k: int|
            0 <= k < ends.len() ==> {
                &&& (#[trigger] ends[k]).0 < nodes.len()
                &&& ends[k].1 < nodes.len()
                &&& nodes[ends[k].0 as int].id@ == edges[k].source_id
                &&& nodes[ends[k].1 as int].id@ == edges[k].target_id
            },
        forall|k: int| 0 <= k < nodes.len() ==> (#[trigger] old_seen[k] <==> reach(nodes, edges, seeds, h).contains(nodes[k].id@)),
        forall|k: int| 0 <= k < nodes.len() && #[trigger] frontier[k] ==> old_seen[k],
        forall|k: int|
            0 <= k < ends.len() ==> {
                &&& (old_seen[(#[trigger] ends[k]).0 as int] && !frontier[ends[k].0 as int] ==> old_seen[ends[k].1 as int])
                &&& (old_seen[ends[k].1 as int] && !frontier[ends[k].1 as int] ==> old_seen[ends[k].0 as int])
            },
        forall|x: int|
            0 <= x < nodes.len() ==> (#[trigger] new_seen[x] <==> (old_seen[x] || exists|j: int|
                0 <= j < ends.len() && ((frontier[ends[j].0 as int] && ends[j].1 == x)
                    || (frontier[ends[j].1 as int] && ends[j].0 == x)))),
    ensures
        forall|k: int| 0 <= k < nodes.len() ==> (#[trigger] new_seen[k] <==> reach(nodes, edges, seeds, h + 1).contains(nodes[k].id@)),
{
    let n = nodes.len();
    let r = reach(nodes, edges, seeds, h);
    let r1 = reach(nodes, edges, seeds, h + 1);
    assert forall|k: int| 0 <= k < n implies (#[trigger] new_seen[k] <==> r1.contains(nodes[k].id@)) by {
        let y = nodes[k].id@;
        if new_seen[k] {
            if !old_seen[k] {
                let j = choose|j: int| 0 <= j < ends.len() && ((frontier[ends[j].0 as int] && ends[j].1 == k)
                    || (frontier[ends[j].1 as int] && ends[j].0 == k));
                let a = ends[j].0 as int;
                let b = ends[j].1 as int;
                if frontier[a] && b == k {
                    assert(joins(edges[j], nodes[a].id@, y));
                    assert(r.contains(nodes[a].id@));
                } else {
                    assert(joins(edges[j], nodes[b].id@, y));
                    assert(r.contains(nodes[b].id@));
                }
            }
        }
        if r1.contains(y) && !r.contains(y) {
            let x = choose|x: Seq<char>| r.contains(x) && linked(edges, x, y);
            let j = choose|j: int| 0 <= j < edges.len() && joins(edges[j], x, y);
            let a = ends[j].0 as int;
            let b = ends[j].1 as int;
            assert(!old_seen[k]);
            if edges[j].source_id == x {
                // x is at a, y at b
                lemma_ids_unique(nodes, b, k);
                assert(old_seen[a]);
                if !frontier[a] {
                    assert(old_seen[b]);
                }
            } else {
                lemma_ids_unique(nodes, a, k);
                assert(old_seen[b]);
                if !frontier[b] {
                    assert(old_seen[a]);
                }
            }
        }
    }
}

/// The edge touches `x`.
pub open spec fn incident(e: EdgeView, x: Seq<char>) -> bool {
    e.source_id == x || e.target_id == x
}

/// The endpoint of `e` other than `x`.
pub open spec fn other_end(e: EdgeView, x: Seq<char>) -> Seq<char> {
    if e.source_id == x {
        e.target_id
    } else {
        e.source_id
    }
}

/// Number of edges touching `x`.
pub open spec fn degree(edges: Seq<EdgeView>, x: Seq<char>) -> int {
    count_true(edges.map_values(|e: EdgeView| incident(e, x))) as int
}

/// Number of triangles containing the pair (u, v): neighbors of `u` (one per edge at `u`,
/// since no pair is linked twice) that are also linked to `v`.
pub open spec fn triangles(edges: Seq<EdgeView>, u: Seq<char>, v: Seq<char>) -> int {
    count_true(edges.map_values(|e: EdgeView| incident(e, u) && linked(edges, v, other_end(e, u)))) as int
}

/// Forman-Ricci curvature of edge `k`: 4 - deg(u) - deg(v) + 3 * triangles(u, v).
pub open spec fn edge_curvature(edges: Seq<EdgeView>, k: int) -> int {
    let u = edges[k].source_id;
    let v = edges[k].target_id;
    4 - degree(edges, u) - degree(edges, v) + 3 * triangles(edges, u, v)
}

/// Pruning considers edge `l` before edge `k`: higher curvature first, ties in edge order.
pub open spec fn prune_before(edges: Seq<EdgeView>, l: int, k: int) -> bool {
    edge_curvature(edges, l) > edge_curvature(edges, k) || (edge_curvature(edges, l)
        == edge_curvature(edges, k) && l < k)
}

/// Among the edges considered before `k`, how many removed ones touch `x`.
pub open spec fn removed_before(edges: Seq<EdgeView>, removed: Seq<bool>, k: int, x: Seq<char>) -> int {
    count_true(Seq::new(edges.len(), |l: int| removed[l] && prune_before(edges, l, k) && incident(edges[l], x))) as int
}

/// The pruning rule for edge `k`: its curvature exceeds `min_curvature`, and at its turn
/// both endpoints still have another edge (so no node is isolated).
pub open spec fn prune_rule(edges: Seq<EdgeView>, removed: Seq<bool>, k: int, min_curvature: int) -> bool {
    let u = edges[k].source_id;
    let v = edges[k].target_id;
    &&& edge_curvature(edges, k) > min_curvature
    &&& degree(edges, u) - removed_before(edges, removed, k, u) > 1
    &&& degree(edges, v) - removed_before(edges, removed, k, v) > 1
}

/// A removal mask that obeys the pruning rule at every edge.
pub open spec fn is_prune_result(edges: Seq<EdgeView>, removed: Seq<bool>, min_curvature: int) -> bool {
    &&& removed.len() == edges.len()
    &&& forall|k: int| 0 <= k < edges.len() ==> #[trigger] removed[k] == prune_rule(edges, removed, k, min_curvature)
}

/// The negation of a mask.
pub open spec fn negate(s: Seq<bool>) -> Seq<bool> {
    s.map_values(|b: bool| !b)
}

/// Edge `j` touches node position `x` (by endpoint positions).
pub open spec fn touches(ends: Seq<(usize, usize)>, j: int, x: int) -> bool {
    ends[j].0 == x || ends[j].1 == x
}

/// The edges among the first `k` that touch node position `x`, increasing.
pub open spec fn touching(ends: Seq<(usize, usize)>, x: int, k: int) -> Seq<usize>
    decreases k,
{
    if k <= 0 {
        Seq::empty()
    } else {
        let p = touching(ends, x, k - 1);
        if touches(ends, k - 1, x) {
            p.push((k - 1) as usize)
        } else {
            p
        }
    }
}

/// Counting a predicate over the edges touching `x` counts it over all edges that touch.
pub proof fn lemma_count_touching(ends: Seq<(usize, usize)>, x: int, k: int, p: spec_fn(int) -> bool)
    requires
        0 <= k <= ends.len(),
        ends.len() <= usize::MAX,
    ensures
        count_true(touching(ends, x, k).map_values(|j: usize| p(j as int)))
            == count_true(Seq::new(k as nat, |j: int| touches(ends, j, x) && p(j))),
        forall|i: int| 0 <= i < touching(ends, x, k).len() ==> #[trigger] touching(ends, x, k)[i] < k && touches(ends, touching(ends, x, k)[i] as int, x),
        forall|j: int| 0 <= j < k && touches(ends, j, x) ==> #[trigger] touching(ends, x, k).contains(j as usize),
    decreases k,
{
    if k > 0 {
        lemma_count_touching(ends, x, k - 1, p);
        let t = touching(ends, x, k);
        let t1 = touching(ends, x, k - 1);
        let f = |j: usize| p(j as int);
        assert(Seq::new(k as nat, |j: int| touches(ends, j, x) && p(j)).drop_last() =~= Seq::new((k - 1) as nat, |j: int| touches(ends, j, x) && p(j)));
        if touches(ends, k - 1, x) {
            assert(t.map_values(f).drop_last() =~= t1.map_values(f));
            assert(t[t1.len() as int] == (k - 1) as usize);
            assert(t.map_values(f).last() == p(k - 1));
            assert forall|i: int| 0 <= i < t.len() implies #[trigger] t[i] < k && touches(ends, t[i] as int, x) by {
                if i < t1.len() {
                    assert(t[i] == t1[i]);
                }
            }
        } else {
            assert(t.map_values(f) =~= t1.map_values(f));
            assert(t == t1);
        }
        assert forall|j: int| 0 <= j < k && touches(ends, j, x) implies #[trigger] t.contains(j as usize) by {
            if j < k - 1 {
                assert(t1.contains(j as usize));
                let w = choose|w: int| 0 <= w < t1.len() && t1[w] == j as usize;
                assert(t[w] == j as usize);
            } else {
                assert(t[t1.len() as int] == j as usize);
            }
        }
    }
}

/// The node position at the other end of edge `j` from position `x`.
pub open spec fn other_pos(ends: Seq<(usize, usize)>, j: int, x: int) -> int {
    if ends[j].0 == x {
        ends[j].1 as int
    } else {
        ends[j].0 as int
    }
}

/// `ends` gives the node positions of each edge's endpoints.
pub open spec fn ends_match(nodes: Seq<MemoryNode>, edges: Seq<EdgeView>, ends: Seq<(usize, usize)>) -> bool {
    &&& ends.len() == edges.len()
    &&& forall|k: int|
        0 <= k < ends.len() ==> {
            &&& (#[trigger] ends[k]).0 < nodes.len()
            &&& ends[k].1 < nodes.len()
            &&& nodes[ends[k].0 as int].id@ == edges[k].source_id
            &&& nodes[ends[k].1 as int].id@ == edges[k].target_id
        }
}

/// Counting all-true flags counts the length.
pub proof fn lemma_count_all_true<T>(s: Seq<T>)
    ensures
        count_true(s.map_values(|x: T| true)) == s.len(),
    decreases s.len(),
{
    if s.len() > 0 {
        assert(s.map_values(|x: T| true).drop_last() =~= s.drop_last().map_values(|x: T| true));
        lemma_count_all_true(s.drop_last());
    }
}

/// Edge positions and ids agree on which edges touch a node.
pub proof fn lemma_touches_incident(nodes: Seq<MemoryNode>, edges: Seq<EdgeView>, ends: Seq<(usize, usize)>, j: int, x: int)
    requires
        nodes_sorted(nodes),
        ends_match(nodes, edges, ends),
        0 <= j < edges.len(),
        0 <= x < nodes.len(),
    ensures
        touches(ends, j, x) == incident(edges[j], nodes[x].id@),
        ends[j].0 == x <==> edges[j].source_id == nodes[x].id@,
        touches(ends, j, x) ==> other_end(edges[j], nodes[x].id@) == nodes[other_pos(ends, j, x)].id@,
        0 <= other_pos(ends, j, x) < nodes.len(),
{
    let a = ends[j].0 as int;
    let b = ends[j].1 as int;
    if edges[j].source_id == nodes[x].id@ {
        lemma_ids_unique(nodes, a, x);
    }
    if edges[j].target_id == nodes[x].id@ {
        lemma_ids_unique(nodes, b, x);
    }
}

/// Degree by position equals degree by id.
pub proof fn lemma_degree_by_position(nodes: Seq<MemoryNode>, edges: Seq<EdgeView>, ends: Seq<(usize, usize)>, x: int)
    requires
        nodes_sorted(nodes),
        ends_match(nodes, edges, ends),
        0 <= x < nodes.len(),
    ensures
        degree(edges, nodes[x].id@) == count_true(Seq::new(edges.len(), |j: int| touches(ends, j, x))),
{
    let lhs = edges.map_values(|e: EdgeView| incident(e, nodes[x].id@));
    let rhs = Seq::new(edges.len(), |j: int| touches(ends, j, x));
    assert forall|j: int| 0 <= j < edges.len() implies #[trigger] lhs[j] == rhs[j] by {
        lemma_touches_incident(nodes, edges, ends, j, x);
    }
    assert(lhs =~= rhs);
}

/// Marks set at the far end of every edge touching `b` mark exactly the nodes linked to `b`.
pub proof fn lemma_marks_linked(
    nodes: Seq<MemoryNode>,
    edges: Seq<EdgeView>,
    ends: Seq<(usize, usize)>,
    b: int,
    mark: Seq<bool>,
)
    requires
        graph_valid(nodes, edges),
        ends_match(nodes, edges, ends),
        ends.len() <= usize::MAX,
        0 <= b < nodes.len(),
        mark.len() == nodes.len(),
        forall|w: int| 0 <= w < nodes.len() ==> (#[trigger] mark[w] <==> exists|i: int|
            0 <= i < touching(ends, b, ends.len() as int).len() && other_pos(ends, touching(ends, b, ends.len() as int)[i] as int, b) == w),
    ensures
        forall|w: int| 0 <= w < nodes.len() ==> (#[trigger] mark[w] <==> linked(edges, nodes[b].id@, nodes[w].id@)),
{
    let lb = touching(ends, b, ends.len() as int);
    lemma_count_touching(ends, b, ends.len() as int, |j: int| true);
    assert forall|w: int| 0 <= w < nodes.len() implies (#[trigger] mark[w] <==> linked(edges, nodes[b].id@, nodes[w].id@)) by {
        if mark[w] {
            let i = choose|i: int| 0 <= i < lb.len() && other_pos(ends, lb[i] as int, b) == w;
            let l = lb[i] as int;
            lemma_touches_incident(nodes, edges, ends, l, b);
            assert(joins(edges[l], nodes[b].id@, nodes[w].id@));
        }
        if linked(edges, nodes[b].id@, nodes[w].id@) {
            let l = choose|l: int| 0 <= l < edges.len() && joins(edges[l], nodes[b].id@, nodes[w].id@);
            lemma_touches_incident(nodes, edges, ends, l, b);
            assert(lb.contains(l as usize));
            let i = choose|i: int| 0 <= i < lb.len() && lb[i] == l as usize;
            let o = other_pos(ends, l, b);
            assert(nodes[o].id@ == nodes[w].id@);
            lemma_ids_unique(nodes, o, w);
        }
    }
}

/// Counting, along the edges touching `a`, the far ends linked to `b` counts the triangles.
pub proof fn lemma_triangles_by_position(
    nodes: Seq<MemoryNode>,
    edges: Seq<EdgeView>,
    ends: Seq<(usize, usize)>,
    a: int,
    b: int,
    mark: Seq<bool>,
)
    requires
        graph_valid(nodes, edges),
        ends_match(nodes, edges, ends),
        0 <= a < nodes.len(),
        0 <= b < nodes.len(),
        mark.len() == nodes.len(),
        forall|w: int| 0 <= w < nodes.len() ==> (#[trigger] mark[w] <==> linked(edges, nodes[b].id@, nodes[w].id@)),
    ensures
        count_true(Seq::new(edges.len(), |j: int| touches(ends, j, a) && mark[other_pos(ends, j, a)]))
            == triangles(edges, nodes[a].id@, nodes[b].id@),
{
    let lhs = Seq::new(edges.len(), |j: int| touches(ends, j, a) && mark[other_pos(ends, j, a)]);
    let rhs = edges.map_values(|e: EdgeView| incident(e, nodes[a].id@) && linked(edges, nodes[b].id@, other_end(e, nodes[a].id@)));
    assert forall|j: int| 0 <= j < edges.len() implies #[trigger] lhs[j] == rhs[j] by {
        lemma_touches_incident(nodes, edges, ends, j, a);
    }
    assert(lhs =~= rhs);
}

/// Any subsequence of valid edges is valid.
pub proof fn lemma_edges_subsequence_valid(nodes: Seq<MemoryNode>, edges: Seq<EdgeView>, keep: Seq<bool>)
    requires
        edges_valid(nodes, edges),
        keep.len() == edges.len(),
    ensures
        edges_valid(nodes, mask_filter(edges, keep)),
{
    let ne = mask_filter(edges, keep);
    let idx = lemma_mask_filter_indices(edges, keep);
    assert forall|k: int| 0 <= k < ne.len() implies {
        &&& has_id(nodes, #[trigger] ne[k].source_id)
        &&& has_id(nodes, ne[k].target_id)
        &&& ne[k].source_id != ne[k].target_id
    } by {
        assert(ne[k] == edges[idx[k]]);
    }
    assert forall|k: int, l: int| 0 <= k < l < ne.len() implies !joins(#[trigger] ne[l], #[trigger] ne[k].source_id, ne[k].target_id) by {
        assert(idx[k] < idx[l]);
        assert(ne[k] == edges[idx[k]]);
        assert(ne[l] == edges[idx[l]]);
    }
}

/// The removed edges touching node position `y`.
pub open spec fn removed_at(removed: Seq<bool>, ends: Seq<(usize, usize)>, y: int) -> Seq<bool> {
    Seq::new(removed.len(), |l: int| removed[l] && touches(ends, l, y))
}

/// Position-level priority of the pruning order on precomputed curvatures.
pub open spec fn ranks_before(curv: Seq<i128>, l: int, k: int) -> bool {
    curv[l] > curv[k] || (curv[l] == curv[k] && l < k)
}

/// `s` lists positions in strictly increasing pruning priority.
pub open spec fn strictly_ranked(curv: Seq<i128>, s: Seq<usize>) -> bool {
    forall|p: int, q: int| 0 <= p < q < s.len() ==> ranks_before(curv, #[trigger] s[p] as int, #[trigger] s[q] as int)
}

/// The priority order is transitive.
proof fn lemma_ranks_before_transitive(curv: Seq<i128>, a: int, b: int, c: int)
    requires
        ranks_before(curv, a, b),
        ranks_before(curv, b, c),
    ensures
        ranks_before(curv, a, c),
{
}

/// Merges two position lists, each strictly ranked, with no position in both.
fn merge_ranked(curv: &Vec<i128>, a: Vec<usize>, b: Vec<usize>) -> (r: Vec<usize>)
    requires
        strictly_ranked(curv@, a@),
        strictly_ranked(curv@, b@),
        forall|x: int, y: int| 0 <= x < a@.len() && 0 <= y < b@.len() ==> #[trigger] a@[x] != #[trigger] b@[y],
        forall|x: int| 0 <= x < a@.len() ==> #[trigger] a@[x] < curv@.len(),
        forall|y: int| 0 <= y < b@.len() ==> #[trigger] b@[y] < curv@.len(),
    ensures
        strictly_ranked(curv@, r@),
        r@.len() == a@.len() + b@.len(),
        forall|v: usize| r@.contains(v) <==> (a@.contains(v) || b@.contains(v)),
{
    let mut r: Vec<usize> = Vec::new();
    let mut i: usize = 0;
    let mut j: usize = 0;
    while i < a.len() || j < b.len()
        invariant
            strictly_ranked(curv@, a@),
            strictly_ranked(curv@, b@),
            forall|x: int, y: int| 0 <= x < a@.len() && 0 <= y < b@.len() ==> #[trigger] a@[x] != #[trigger] b@[y],
            forall|x: int| 0 <= x < a@.len() ==> #[trigger] a@[x] < curv@.len(),
            forall|y: int| 0 <= y < b@.len() ==> #[trigger] b@[y] < curv@.len(),
            i <= a@.len(),
            j <= b@.len(),
            r@.len() == i + j,
            strictly_ranked(curv@, r@),
            forall|v: usize| r@.contains(v) <==> (a@.subrange(0, i as int).contains(v) || b@.subrange(0, j as int).contains(v)),
            forall|p: int, x: int| 0 <= p < r@.len() && i <= x < a@.len() ==> ranks_before(curv@, #[trigger] r@[p] as int, #[trigger] a@[x] as int),
            forall|p: int, y: int| 0 <= p < r@.len() && j <= y < b@.len() ==> ranks_before(curv@, #[trigger] r@[p] as int, #[trigger] b@[y] as int),
        decreases a@.len() + b@.len() - i - j,
    {
        let take_a = if i < a.len() && j < b.len() {
            let x = a[i];
            let y = b[j];
            curv[x] > curv[y] || (curv[x] == curv[y] && x < y)
        } else {
            i < a.len()
        };
        let ghost old_r = r@;
        if take_a {
            let x = a[i];
            r.push(x);
            proof {
                assert forall|y: int| j <= y < b@.len() implies ranks_before(curv@, x as int, #[trigger] b@[y] as int) by {
                    if y > j {
                        lemma_ranks_before_transitive(curv@, x as int, b@[j as int] as int, b@[y] as int);
                    }
                }
                assert forall|p: int, q: int| 0 <= p < q < r@.len() implies ranks_before(curv@, #[trigger] r@[p] as int, #[trigger] r@[q] as int) by {
                    if q < old_r.len() {
                        assert(r@[p] == old_r[p] && r@[q] == old_r[q]);
                    } else {
                        assert(r@[p] == old_r[p]);
                    }
                }
                assert(a@.subrange(0, i + 1) =~= a@.subrange(0, i as int).push(x));
                assert forall|v: usize| r@.contains(v) <==> (a@.subrange(0, i + 1).contains(v) || b@.subrange(0, j as int).contains(v)) by {
                    let sa0 = a@.subrange(0, i as int);
                    let sa1 = a@.subrange(0, i + 1);
                    let sb0 = b@.subrange(0, j as int);
                    if r@.contains(v) {
                        if v == x {
                            assert(sa1[i as int] == v);
                        } else {
                            let p = choose|p: int| 0 <= p < r@.len() && r@[p] == v;
                            assert(old_r[p] == v);
                            assert(old_r.contains(v));
                            if sa0.contains(v) {
                                let q = choose|q: int| 0 <= q < sa0.len() && sa0[q] == v;
                                assert(sa1[q] == v);
                            }
                        }
                    }
                    if sa1.contains(v) || sb0.contains(v) {
                        if v == x {
                            assert(r@[old_r.len() as int] == v);
                        } else {
                            if sa1.contains(v) {
                                let q = choose|q: int| 0 <= q < sa1.len() && sa1[q] == v;
                                assert(sa0[q] == v);
                                assert(sa0.contains(v));
                            }
                            assert(old_r.contains(v));
                            let p = choose|p: int| 0 <= p < old_r.len() && old_r[p] == v;
                            assert(r@[p] == v);
                        }
                    }
                }
                assert forall|p: int, x2: int| 0 <= p < r@.len() && i + 1 <= x2 < a@.len() implies ranks_before(curv@, #[trigger] r@[p] as int, #[trigger] a@[x2] as int) by {
                    if p < old_r.len() {
                        assert(r@[p] == old_r[p]);
                    }
                }
                assert forall|p: int, y: int| 0 <= p < r@.len() && j <= y < b@.len() implies ranks_before(curv@, #[trigger] r@[p] as int, #[trigger] b@[y] as int) by {
                    if p < old_r.len() {
                        assert(r@[p] == old_r[p]);
                    }
                }
            }
            i = i + 1;
        } else {
            let y = b[j];
            r.push(y);
            proof {
                if i < a@.len() {
                    assert(a@[i as int] != y);
                }
                assert forall|x2: int| i <= x2 < a@.len() implies ranks_before(curv@, y as int, #[trigger] a@[x2] as int) by {
                    assert(a@[i as int] != y);
                    if x2 > i {
                        lemma_ranks_before_transitive(curv@, y as int, a@[i as int] as int, a@[x2] as int);
                    }
                }
                assert forall|p: int, q: int| 0 <= p < q < r@.len() implies ranks_before(curv@, #[trigger] r@[p] as int, #[trigger] r@[q] as int) by {
                    if q < old_r.len() {
                        assert(r@[p] == old_r[p] && r@[q] == old_r[q]);
                    } else {
                        assert(r@[p] == old_r[p]);
                    }
                }
                assert(b@.subrange(0, j + 1) =~= b@.subrange(0, j as int).push(y));
                assert forall|v: usize| r@.contains(v) <==> (a@.subrange(0, i as int).contains(v) || b@.subrange(0, j + 1).contains(v)) by {
                    let sb0 = b@.subrange(0, j as int);
                    let sb1 = b@.subrange(0, j + 1);
                    let sa0 = a@.subrange(0, i as int);
                    if r@.contains(v) {
                        if v == y {
                            assert(sb1[j as int] == v);
                        } else {
                            let p = choose|p: int| 0 <= p < r@.len() && r@[p] == v;
                            assert(old_r[p] == v);
                            assert(old_r.contains(v));
                            if sb0.contains(v) {
                                let q = choose|q: int| 0 <= q < sb0.len() && sb0[q] == v;
                                assert(sb1[q] == v);
                            }
                        }
                    }
                    if sa0.contains(v) || sb1.contains(v) {
                        if v == y {
                            assert(r@[old_r.len() as int] == v);
                        } else {
                            if sb1.contains(v) {
                                let q = choose|q: int| 0 <= q < sb1.len() && sb1[q] == v;
                                assert(sb0[q] == v);
                                assert(sb0.contains(v));
                            }
                            assert(old_r.contains(v));
                            let p = choose|p: int| 0 <= p < old_r.len() && old_r[p] == v;
                            assert(r@[p] == v);
                        }
                    }
                }
                assert forall|p: int, x2: int| 0 <= p < r@.len() && i <= x2 < a@.len() implies ranks_before(curv@, #[trigger] r@[p] as int, #[trigger] a@[x2] as int) by {
                    if p < old_r.len() {
                        assert(r@[p] == old_r[p]);
                    }
                }
                assert forall|p: int, y2: int| 0 <= p < r@.len() && j + 1 <= y2 < b@.len() implies ranks_before(curv@, #[trigger] r@[p] as int, #[trigger] b@[y2] as int) by {
                    if p < old_r.len() {
                        assert(r@[p] == old_r[p]);
                    }
                }
            }
            j = j + 1;
        }
    }
    proof {
        assert(a@.subrange(0, i as int) =~= a@);
        assert(b@.subrange(0, j as int) =~= b@);
    }
    r
}

/// The positions `lo..hi` in pruning order: highest curvature first, ties by position.
pub(crate) fn prune_order(curv: &Vec<i128>, lo: usize, hi: usize) -> (r: Vec<usize>)
    requires
        lo <= hi <= curv@.len(),
    ensures
        strictly_ranked(curv@, r@),
        r@.len() == hi - lo,
        forall|t: int| 0 <= t < r@.len() ==> lo <= #[trigger] r@[t] < hi,
        forall|v: usize| lo <= v < hi ==> r@.contains(v),
    decreases hi - lo,
{
    if hi - lo == 0 {
        Vec::new()
    } else if hi - lo == 1 {
        let r = vec![lo];
        assert(r@[0] == lo);
        r
    } else {
        let mid = lo + (hi - lo) / 2;
        let a = prune_order(curv, lo, mid);
        let b = prune_order(curv, mid, hi);
        let r = merge_ranked(curv, a, b);
        proof {
            assert forall|t: int| 0 <= t < r@.len() implies lo <= #[trigger] r@[t] < hi by {
                assert(r@.contains(r@[t]));
                if a@.contains(r@[t]) {
                    let x = choose|x: int| 0 <= x < a@.len() && a@[x] == r@[t];
                } else {
                    let y = choose|y: int| 0 <= y < b@.len() && b@[y] == r@[t];
                }
            }
            assert forall|v: usize| lo <= v < hi implies r@.contains(v) by {
                if v < mid {
                    assert(a@.contains(v));
                } else {
                    assert(b@.contains(v));
                }
            }
        }
        r
    }
}

/// How many edges pruning considers before edge `k`.
pub open spec fn prune_rank(edges: Seq<EdgeView>, k: int) -> nat {
    count_true(Seq::new(edges.len(), |l: int| prune_before(edges, l, k)))
}

/// An edge considered earlier has a smaller rank.
pub proof fn lemma_prune_rank_less(edges: Seq<EdgeView>, l: int, k: int)
    requires
        0 <= l < edges.len(),
        0 <= k < edges.len(),
        prune_before(edges, l, k),
    ensures
        prune_rank(edges, l) < prune_rank(edges, k),
{
    let a = Seq::new(edges.len(), |j: int| prune_before(edges, j, l));
    let b = Seq::new(edges.len(), |j: int| prune_before(edges, j, k));
    let b2 = b.update(l, false);
    assert(b2.update(l, true) =~= b);
    lemma_count_true_set(b2, l);
    lemma_count_true_mono(a, b2);
}

/// The pruning rule has exactly one solution: two masks that both obey it agree.
pub proof fn lemma_prune_result_unique(edges: Seq<EdgeView>, r1: Seq<bool>, r2: Seq<bool>, min_curvature: int)
    requires
        is_prune_result(edges, r1, min_curvature),
        is_prune_result(edges, r2, min_curvature),
    ensures
        r1 == r2,
{
    assert forall|k: int| 0 <= k < edges.len() implies #[trigger] r1[k] == r2[k] by {
        lemma_prune_results_agree_at(edges, r1, r2, min_curvature, k);
    }
    assert(r1 =~= r2);
}

proof fn lemma_prune_results_agree_at(edges: Seq<EdgeView>, r1: Seq<bool>, r2: Seq<bool>, min_curvature: int, k: int)
    requires
        is_prune_result(edges, r1, min_curvature),
        is_prune_result(edges, r2, min_curvature),
        0 <= k < edges.len(),
    ensures
        r1[k] == r2[k],
    decreases prune_rank(edges, k),
{
    assert forall|l: int| 0 <= l < edges.len() && prune_before(edges, l, k) implies r1[l] == r2[l] by {
        lemma_prune_rank_less(edges, l, k);
        lemma_prune_results_agree_at(edges, r1, r2, min_curvature, l);
    }
    let u = edges[k].source_id;
    let v = edges[k].target_id;
    assert(Seq::new(edges.len(), |l: int| r1[l] && prune_before(edges, l, k) && incident(edges[l], u))
        =~= Seq::new(edges.len(), |l: int| r2[l] && prune_before(edges, l, k) && incident(edges[l], u)));
    assert(Seq::new(edges.len(), |l: int| r1[l] && prune_before(edges, l, k) && incident(edges[l], v))
        =~= Seq::new(edges.len(), |l: int| r2[l] && prune_before(edges, l, k) && incident(edges[l], v)));
    assert(r1[k] == prune_rule(edges, r1, k, min_curvature));
    assert(r2[k] == prune_rule(edges, r2, k, min_curvature));
}

/// The entity tokens of a node's content.
pub open spec fn node_entities(n: MemoryNode) -> Set<Seq<char>> {
    spec_entities(n.content@)
}

/// A set flag makes the count positive.
proof fn lemma_count_true_pos(s: Seq<bool>, i: int)
    requires
        0 <= i < s.len(),
        s[i],
    ensures
        count_true(s) >= 1,
    decreases s.len(),
{
    if i < s.len() - 1 {
        assert(s.drop_last()[i] == s[i]);
        lemma_count_true_pos(s.drop_last(), i);
    }
}

/// Among the edges below `upto` that touch `x` (there is one), the one pruning considers
/// last.
proof fn lemma_last_incident(edges: Seq<EdgeView>, x: Seq<char>, upto: int) -> (k: int)
    requires
        0 < upto <= edges.len(),
        exists|l: int| 0 <= l < upto && incident(edges[l], x),
    ensures
        0 <= k < upto,
        incident(edges[k], x),
        forall|l: int| 0 <= l < upto && l != k && incident(#[trigger] edges[l], x) ==> prune_before(edges, l, k),
    decreases upto,
{
    let j = upto - 1;
    if exists|l: int| 0 <= l < j && incident(edges[l], x) {
        let k0 = lemma_last_incident(edges, x, j);
        if incident(edges[j], x) && prune_before(edges, k0, j) {
            assert forall|l: int| 0 <= l < upto && l != j && incident(#[trigger] edges[l], x) implies prune_before(edges, l, j) by {
                if l != k0 {
                    assert(prune_before(edges, l, k0));
                }
            }
            j
        } else {
            k0
        }
    } else {
        j
    }
}

/// Pruning never isolates a node: a node with an edge before pruning still has one after.
pub proof fn lemma_prune_never_isolates(edges: Seq<EdgeView>, removed: Seq<bool>, min_curvature: int, x: Seq<char>)
    requires
        is_prune_result(edges, removed, min_curvature),
        degree(edges, x) >= 1,
    ensures
        degree(mask_filter(edges, negate(removed)), x) >= 1,
{
    let inc = edges.map_values(|e: EdgeView| incident(e, x));
    let keep = negate(removed);
    if exists|l: int| 0 <= l < edges.len() && !removed[l] && incident(edges[l], x) {
        let l = choose|l: int| 0 <= l < edges.len() && !removed[l] && incident(edges[l], x);
        let idx = lemma_mask_filter_indices(edges, keep);
        assert(keep[l]);
        let q = choose|q: int| 0 <= q < idx.len() && idx[q] == l;
        let kept = mask_filter(edges, keep);
        assert(kept[q] == edges[l]);
        let kinc = kept.map_values(|e: EdgeView| incident(e, x));
        assert(kinc[q]);
        lemma_count_true_pos(kinc, q);
    } else {
        if forall|l: int| 0 <= l < edges.len() ==> !incident(#[trigger] edges[l], x) {
            assert(inc =~= Seq::new(edges.len(), |l: int| false));
            lemma_count_false(edges.len());
            assert(false);
        }
        let k = lemma_last_incident(edges, x, edges.len() as int);
        assert(removed[k]);
        assert(prune_rule(edges, removed, k, min_curvature));
        let rb = Seq::new(edges.len(), |l: int| removed[l] && prune_before(edges, l, k) && incident(edges[l], x));
        let inc0 = inc.update(k, false);
        assert(rb =~= inc0) by {
            assert forall|l: int| 0 <= l < edges.len() implies rb[l] == inc0[l] by {
                if l != k && incident(edges[l], x) {
                    assert(removed[l]);
                    assert(prune_before(edges, l, k));
                }
            }
        }
        assert(inc0.update(k, true) =~= inc);
        lemma_count_true_set(inc0, k);
        assert(removed_before(edges, removed, k, x) == count_true(rb));
        assert(false);
    }
}

/// In how many nodes an entity occurs.
pub open spec fn entity_freq(nodes: Seq<MemoryNode>, t: Seq<char>) -> nat {
    count_true(nodes.map_values(|n: MemoryNode| node_entities(n).contains(t)))
}

/// How many rare entities (occurring in at most `max_freq` nodes) nodes `i` and `j` share.
pub open spec fn shared_rare(nodes: Seq<MemoryNode>, i: int, j: int, max_freq: usize) -> nat {
    node_entities(nodes[i]).filter(
        |t: Seq<char>| node_entities(nodes[j]).contains(t) && entity_freq(nodes, t) <= max_freq,
    ).len()
}

/// Entity-link candidates of node `i` with nodes `j..`: pairs sharing at least
/// `min_shared` rare entities, weighted by the shared count (as an f32).
pub open spec fn entity_row(nodes: Seq<MemoryNode>, i: int, j: int, max_freq: usize, min_shared: usize) -> Seq<(Seq<char>, Seq<char>, u32)>
    decreases nodes.len() - j,
{
    if j < 0 || j >= nodes.len() {
        Seq::empty()
    } else {
        let c = shared_rare(nodes, i, j, max_freq);
        let here = if c >= min_shared {
            seq![(nodes[i].id@, nodes[j].id@, spec_count_bits(c as u64))]
        } else {
            Seq::empty()
        };
        here + entity_row(nodes, i, j + 1, max_freq, min_shared)
    }
}

/// Entity-link candidates among pairs `(i, j)` with `i0 <= i < j`, in pair order.
pub open spec fn entity_pairs_from(nodes: Seq<MemoryNode>, i: int, max_freq: usize, min_shared: usize) -> Seq<(Seq<char>, Seq<char>, u32)>
    decreases nodes.len() - i,
{
    if i < 0 || i >= nodes.len() {
        Seq::empty()
    } else {
        entity_row(nodes, i, i + 1, max_freq, min_shared) + entity_pairs_from(nodes, i + 1, max_freq, min_shared)
    }
}

/// The memory graph.
#[derive(Debug, Clone)]
pub struct MemoryGraphNexus {
    nodes: Vec<MemoryNode>,
    edges: Vec<MemoryEdge>,
    hyperedges: Vec<HyperEdge>,
    topology: Topology24Cell,
    clock: u64,
    id_seed: u64,
}

/// The node a fresh `create_node` call builds, before it is stored.
pub open spec fn fresh_node_fields(
    n: MemoryNode,
    id: Seq<char>,
    content: String,
    summary: String,
    tags: Vec<String>,
    source_type: SourceType,
    cluster: Seq<char>,
    cell_id: u8,
    canon_level: CanonLevel,
    now: u64,
) -> bool {
    &&& n.id@ == id
    &&& n.content == content
    &&& n.summary == summary
    &&& n.tags == tags
    &&& n.importance == if INITIAL_IMPORTANCE < spec_importance_cap(source_type) {
        INITIAL_IMPORTANCE
    } else {
        spec_importance_cap(source_type)
    }
    &&& n.confidence == INITIAL_CONFIDENCE
    &&& n.source_type == source_type
    &&& n.cluster_id@ == cluster
    &&& n.cell_id == cell_id
    &&& n.canon_level == canon_level
    &&& !n.bridge_to_all
    &&& n.is_ephemeral == !canon_level.spec_is_canon()
    &&& n.affect.is_neutral_baseline()
    &&& n.created_at == now
    &&& n.last_accessed_at == now
    &&& n.access_count == 1
    &&& n.confirmations == 0
    &&& n.rejections == 0
}

/// The id that the next generated identifier will have.
pub open spec fn next_id_spec(seed: u64) -> Seq<char> {
    hex16(splitmix_mix(splitmix_advance(seed)))
}

impl MemoryGraphNexus {
    /// The stored nodes, in increasing id order.
    pub closed spec fn spec_nodes(&self) -> Seq<MemoryNode> {
        self.nodes@
    }

    /// The stored edges, in creation order.
    pub closed spec fn spec_edges(&self) -> Seq<EdgeView> {
        edge_views(self.edges@)
    }

    /// The logical clock.
    pub closed spec fn spec_clock(&self) -> u64 {
        self.clock
    }

    /// The identifier generator's state.
    pub closed spec fn spec_id_seed(&self) -> u64 {
        self.id_seed
    }

    /// The ontology cells.
    pub closed spec fn spec_topology(&self) -> Seq<StateCell> {
        self.topology.spec_cells()
    }

    /// The stored hyperedges.
    pub closed spec fn spec_hyperedges(&self) -> Seq<HyperEdge> {
        self.hyperedges@
    }


    /// The graph invariant.
    pub closed spec fn wf(&self) -> bool {
        graph_valid(self.nodes@, edge_views(self.edges@))
    }

    /// Everything but the nodes is unchanged between `self` and `other`.
    pub open spec fn same_but_nodes(&self, other: &Self) -> bool {
        &&& self.spec_edges() == other.spec_edges()
        &&& self.spec_clock() == other.spec_clock()
        &&& self.spec_id_seed() == other.spec_id_seed()
        &&& self.spec_topology() == other.spec_topology()
        &&& self.spec_hyperedges() == other.spec_hyperedges()
    }

    pub proof fn lemma_wf_nodes(&self)
        requires
            self.wf(),
        ensures
            graph_valid(self.spec_nodes(), self.spec_edges()),
    {
    }

    /// An empty graph with the default ontology.
    pub fn new() -> (g: Self)
        ensures
            g.wf(),
            g.spec_nodes() == Seq::<MemoryNode>::empty(),
            g.spec_edges() == Seq::<EdgeView>::empty(),
            g.spec_clock() == 0,
            g.spec_id_seed() == INITIAL_ID_SEED,
            is_default_ontology(g.spec_topology()),
            g.spec_hyperedges() == Seq::<HyperEdge>::empty(),
    {
        let g = MemoryGraphNexus {
            nodes: Vec::new(),
            edges: Vec::new(),
            hyperedges: Vec::new(),
            topology: Topology24Cell::new(),
            clock: 0,
            id_seed: INITIAL_ID_SEED,
        };
        assert(edge_views(g.edges@) =~= Seq::<EdgeView>::empty());
        g
    }

    fn next_tick(&mut self) -> (t: u64)
        ensures
            t == old(self).clock.wrapping_add(1),
            final(self).clock == t,
            final(self).nodes == old(self).nodes,
            final(self).edges == old(self).edges,
            final(self).hyperedges == old(self).hyperedges,
            final(self).topology == old(self).topology,
            final(self).id_seed == old(self).id_seed,
    {
        self.clock = self.clock.wrapping_add(1);
        self.clock
    }

    fn next_id(&mut self) -> (id: String)
        ensures
            id@ == next_id_spec(old(self).id_seed),
            final(self).id_seed == splitmix_advance(old(self).id_seed),
            final(self).clock == old(self).clock,
            final(self).nodes == old(self).nodes,
            final(self).edges == old(self).edges,
            final(self).hyperedges == old(self).hyperedges,
            final(self).topology == old(self).topology,
    {
        let z = splitmix_next(&mut self.id_seed);
        format_hex16(z)
    }

    /// Binary search for `id`: `Ok` with its position, or `Err` with the position where a
    /// node with that id would be inserted.
    fn find_index(&self, id: &str) -> (r: Result<usize, usize>)
        requires
            nodes_sorted(self.nodes@),
        ensures
            match r {
                Ok(i) => i < self.nodes@.len() && self.nodes@[i as int].id@ == id@,
                Err(p) => {
                    &&& p <= self.nodes@.len()
                    &&& !has_id(self.nodes@, id@)
                    &&& forall|j: int| 0 <= j < p ==> id_lt(#[trigger] self.nodes@[j].id@, id@)
                    &&& forall|j: int| p <= j < self.nodes@.len() ==> id_lt(id@, #[trigger] self.nodes@[j].id@)
                },
            },
    {
        let mut lo: usize = 0;
        let mut hi: usize = self.nodes.len();
        while lo < hi
            invariant
                nodes_sorted(self.nodes@),
                lo <= hi <= self.nodes@.len(),
                forall|j: int| 0 <= j < lo ==> id_lt(#[trigger] self.nodes@[j].id@, id@),
                forall|j: int| hi <= j < self.nodes@.len() ==> id_lt(id@, #[trigger] self.nodes@[j].id@),
            decreases hi - lo,
        {
            let mid = lo + (hi - lo) / 2;
            match compare_keys(self.nodes[mid].id.as_str(), id) {
                KeyOrder::Equal => {
                    return Ok(mid);
                },
                KeyOrder::Less => {
                    proof {
                        assert forall|j: int| 0 <= j < mid + 1 implies id_lt(#[trigger] self.nodes@[j].id@, id@) by {
                            if j < mid {
                                lemma_id_lt_transitive(self.nodes@[j].id@, self.nodes@[mid as int].id@, id@);
                            }
                        }
                    }
                    lo = mid + 1;
                },
                KeyOrder::Greater => {
                    proof {
                        assert forall|j: int| mid <= j < self.nodes@.len() implies id_lt(id@, #[trigger] self.nodes@[j].id@) by {
                            if j > mid {
                                lemma_id_lt_transitive(id@, self.nodes@[mid as int].id@, self.nodes@[j].id@);
                            }
                        }
                    }
                    hi = mid;
                },
            }
        }
        proof {
            assert forall|i: int| 0 <= i < self.nodes@.len() implies self.nodes@[i].id@ != id@ by {
                if i < lo {
                    lemma_id_lt_asymmetric(self.nodes@[i].id@, id@);
                } else {
                    lemma_id_lt_asymmetric(id@, self.nodes@[i].id@);
                }
            }
        }
        Err(lo)
    }

    /// Infer cluster routing from provenance and tags (see [`spec_infer_cluster`]).
    pub fn infer_cluster_for_node(
        &self,
        source_type: &SourceType,
        tags: &[String],
        explicit_cluster: Option<&str>,
    ) -> (r: String)
        ensures
            r@ == spec_infer_cluster(*source_type, tags@, opt_view(explicit_cluster)),
    {
        if let Some(cluster) = explicit_cluster {
            return cluster.to_owned();
        }
        if source_type.is_self_description() {
            return "system".to_owned();
        }
        let mut lowered: Vec<String> = Vec::new();
        let mut i: usize = 0;
        while i < tags.len()
            invariant
                i <= tags@.len(),
                string_views(lowered@) == tags@.subrange(0, i as int).map_values(|t: String| spec_to_lowercase(t@)),
            decreases tags@.len() - i,
        {
            let ghost before = string_views(lowered@);
            lowered.push(to_lowercase(tags[i].as_str()));
            proof {
                assert(string_views(lowered@) =~= before.push(spec_to_lowercase(tags@[i as int]@)));
                assert(tags@.subrange(0, i + 1).map_values(|t: String| spec_to_lowercase(t@)) =~= tags@.subrange(
                    0,
                    i as int,
                ).map_values(|t: String| spec_to_lowercase(t@)).push(spec_to_lowercase(tags@[i as int]@)));
            }
            i = i + 1;
        }
        proof {
            assert(tags@.subrange(0, tags@.len() as int) =~= tags@);
        }
        cluster_for_lowered_tags(source_type, lowered.as_slice(), explicit_cluster)
    }

    /// Stores `node` under its id, replacing any node with that id.
    fn insert_node(&mut self, node: MemoryNode)
        requires
            old(self).wf(),
            node_valid(node),
        ensures
            final(self).wf(),
            stores_node(old(self).nodes@, final(self).nodes@, node),
            final(self).edges == old(self).edges,
            final(self).hyperedges == old(self).hyperedges,
            final(self).topology == old(self).topology,
            final(self).clock == old(self).clock,
            final(self).id_seed == old(self).id_seed,
    {
        let ghost old_nodes = self.nodes@;
        match self.find_index(node.id.as_str()) {
            Ok(i) => {
                proof {
                    lemma_replace_at(old_nodes, i as int, node);
                }
                self.nodes.set(i, node);
            },
            Err(p) => {
                proof {
                    lemma_insert_at(old_nodes, p as int, node);
                }
                self.nodes.insert(p, node);
            },
        }
        proof {
            lemma_stores_node_valid(old_nodes, self.nodes@, node, edge_views(self.edges@));
        }
    }

    /// Add a new node; returns its generated id. The node starts at importance
    /// min(0.45, provenance cap), confidence 0.80, neutral affect, one access at the new
    /// clock tick; it is ephemeral unless its canon level is canon.
    pub fn create_node(
        &mut self,
        content: String,
        summary: String,
        tags: Vec<String>,
        source_type: SourceType,
        cell_id: u8,
        explicit_cluster: Option<&str>,
        canon_level: CanonLevel,
    ) -> (id: String)
        requires
            old(self).wf(),
        ensures
            node_created(
                *old(self),
                *final(self),
                id@,
                content,
                summary,
                tags,
                source_type,
                cell_id,
                opt_view(explicit_cluster),
                canon_level,
            ),
    {
        let id = self.next_id();
        let cluster_id = self.infer_cluster_for_node(&source_type, tags.as_slice(), explicit_cluster);
        let now = self.next_tick();
        let cap = source_type.max_importance_cap();
        let node = MemoryNode {
            id: id.clone(),
            content,
            summary,
            tags,
            importance: if INITIAL_IMPORTANCE < cap { INITIAL_IMPORTANCE } else { cap },
            confidence: INITIAL_CONFIDENCE,
            source_type,
            cluster_id,
            cell_id,
            canon_level,
            bridge_to_all: false,
            is_ephemeral: !canon_level.is_immortal(),
            affect: AffectState::default(),
            created_at: now,
            last_accessed_at: now,
            access_count: 1,
            confirmations: 0,
            rejections: 0,
        };
        proof {
            assert(node_valid(node));
        }
        self.insert_node(node);
        id
    }

    /// Create an undirected association between two nodes (see [`add_edge_model`]): a
    /// no-op if the ids are equal, either node is missing, or the pair is already linked.
    pub fn add_edge(&mut self, source_id: &str, target_id: &str, relation: &str, weight: u32)
        requires
            old(self).wf(),
        ensures
            final(self).wf(),
            (final(self).spec_edges(), final(self).spec_id_seed()) == add_edge_model(
                old(self).spec_nodes(),
                old(self).spec_edges(),
                old(self).spec_id_seed(),
                source_id@,
                target_id@,
                relation@,
                weight,
            ),
            final(self).spec_nodes() == old(self).spec_nodes(),
            final(self).spec_clock() == old(self).spec_clock(),
            final(self).spec_topology() == old(self).spec_topology(),
            final(self).spec_hyperedges() == old(self).spec_hyperedges(),
    {
        if str_equal(source_id, target_id) || !self.contains_node(source_id) || !self.contains_node(target_id) {
            return;
        }
        let mut k: usize = 0;
        while k < self.edges.len()
            invariant
                self.wf(),
                k <= self.edges@.len(),
                forall|j: int| 0 <= j < k ==> !joins(#[trigger] edge_views(self.edges@)[j], source_id@, target_id@),
            decreases self.edges@.len() - k,
        {
            let e = &self.edges[k];
            if (str_equal(e.source_id.as_str(), source_id) && str_equal(e.target_id.as_str(), target_id))
                || (str_equal(e.source_id.as_str(), target_id) && str_equal(e.target_id.as_str(), source_id)) {
                assert(joins(edge_views(self.edges@)[k as int], source_id@, target_id@));
                return;
            }
            k = k + 1;
        }
        let ghost old_edges = edge_views(self.edges@);
        let ghost nodes = self.nodes@;
        let edge_id = self.next_id();
        let edge = MemoryEdge {
            id: edge_id,
            source_id: source_id.to_owned(),
            target_id: target_id.to_owned(),
            relation_type: relation.to_owned(),
            weight,
        };
        self.edges.push(edge);
        proof {
            let ne = edge_views(self.edges@);
            assert(ne =~= old_edges.push(edge@));
            assert forall|a: int, b: int| 0 <= a < b < ne.len() implies !joins(#[trigger] ne[b], #[trigger] ne[a].source_id, ne[a].target_id) by {
                if b == ne.len() - 1 {
                    assert(ne[a] == old_edges[a]);
                } else {
                    assert(ne[a] == old_edges[a]);
                    assert(ne[b] == old_edges[b]);
                }
            }
        }
    }

    /// Adds the edge of each candidate pair in turn with the given relation (see
    /// [`link_all_model`]); returns the number of edges created.
    pub fn link_pairs(&mut self, pairs: &Vec<(String, String, u32)>, relation: &str) -> (created: usize)
        requires
            old(self).wf(),
        ensures
            final(self).wf(),
            (final(self).spec_edges(), final(self).spec_id_seed()) == link_all_model(
                old(self).spec_nodes(),
                old(self).spec_edges(),
                old(self).spec_id_seed(),
                pair_views(pairs@),
                relation@,
            ),
            created == final(self).spec_edges().len() - old(self).spec_edges().len(),
            final(self).spec_nodes() == old(self).spec_nodes(),
            final(self).spec_clock() == old(self).spec_clock(),
            final(self).spec_topology() == old(self).spec_topology(),
            final(self).spec_hyperedges() == old(self).spec_hyperedges(),
    {
        let before = self.edges.len();
        let mut i: usize = 0;
        while i < pairs.len()
            invariant
                self.wf(),
                i <= pairs@.len(),
                (self.spec_edges(), self.spec_id_seed()) == link_all_model(
                    old(self).spec_nodes(),
                    old(self).spec_edges(),
                    old(self).spec_id_seed(),
                    pair_views(pairs@).subrange(0, i as int),
                    relation@,
                ),
                self.spec_edges().len() >= before,
                before == old(self).spec_edges().len(),
                self.spec_nodes() == old(self).spec_nodes(),
                self.spec_clock() == old(self).spec_clock(),
                self.spec_topology() == old(self).spec_topology(),
                self.spec_hyperedges() == old(self).spec_hyperedges(),
            decreases pairs@.len() - i,
        {
            let p = &pairs[i];
            self.add_edge(p.0.as_str(), p.1.as_str(), relation, p.2);
            proof {
                let pv = pair_views(pairs@);
                assert(pv.subrange(0, i + 1).drop_last() =~= pv.subrange(0, i as int));
            }
            i = i + 1;
        }
        proof {
            assert(pair_views(pairs@).subrange(0, pairs@.len() as int) =~= pair_views(pairs@));
        }
        assert(self.edges@.len() == self.spec_edges().len());
        self.edges.len() - before
    }

    /// Directly linked neighbor ids of `node_id` (undirected), in edge order.
    pub fn neighbors(&self, node_id: &str) -> (r: Vec<String>)
        ensures
            string_views(r@) == neighbor_ids(self.spec_edges(), node_id@),
    {
        let mut out: Vec<String> = Vec::new();
        let mut k: usize = 0;
        while k < self.edges.len()
            invariant
                k <= self.edges@.len(),
                string_views(out@) == neighbor_ids(edge_views(self.edges@).subrange(0, k as int), node_id@),
            decreases self.edges@.len() - k,
        {
            let e = &self.edges[k];
            proof {
                let ev = edge_views(self.edges@);
                assert(ev.subrange(0, k + 1).drop_last() =~= ev.subrange(0, k as int));
                assert(ev.subrange(0, k + 1).last() == e@);
            }
            if str_equal(e.source_id.as_str(), node_id) {
                out.push(e.target_id.clone());
            } else if str_equal(e.target_id.as_str(), node_id) {
                out.push(e.source_id.clone());
            }
            proof {
                assert(string_views(out@) =~= neighbor_ids(edge_views(self.edges@).subrange(0, k + 1), node_id@));
            }
            k = k + 1;
        }
        proof {
            assert(edge_views(self.edges@).subrange(0, self.edges@.len() as int) =~= edge_views(self.edges@));
        }
        out
    }

    /// Record that a node was recalled: the clock ticks, and the node (if stored) gains an
    /// access (saturating) at the new tick.
    pub fn record_access(&mut self, node_id: &str)
        requires
            old(self).wf(),
        ensures
            final(self).wf(),
            final(self).spec_clock() == old(self).spec_clock().wrapping_add(1),
            final(self).spec_nodes() == update_where(
                old(self).spec_nodes(),
                node_id@,
                |n: MemoryNode| touched(n, final(self).spec_clock()),
            ),
            final(self).spec_edges() == old(self).spec_edges(),
            final(self).spec_id_seed() == old(self).spec_id_seed(),
            final(self).spec_topology() == old(self).spec_topology(),
            final(self).spec_hyperedges() == old(self).spec_hyperedges(),
    {
        let now = self.next_tick();
        let ghost f = |n: MemoryNode| touched(n, now);
        let ghost old_nodes = self.nodes@;
        match self.find_index(node_id) {
            Ok(i) => {
                self.nodes[i].access_count = self.nodes[i].access_count.saturating_add(1);
                self.nodes[i].last_accessed_at = now;
                proof {
                    lemma_update_where_at(old_nodes, i as int, f);
                    assert(self.nodes@ =~= old_nodes.update(i as int, f(old_nodes[i as int])));
                }
            },
            Err(_) => {
                proof {
                    lemma_update_where_absent(old_nodes, node_id@, f);
                }
            },
        }
        proof {
            lemma_same_ids_valid(old_nodes, self.nodes@, edge_views(self.edges@));
        }
    }

    /// Set the emotional disposition of a stored node. Returns false if it does not exist.
    pub fn set_node_affect(&mut self, node_id: &str, affect: AffectState) -> (r: bool)
        requires
            old(self).wf(),
        ensures
            final(self).wf(),
            r == has_id(old(self).spec_nodes(), node_id@),
            final(self).spec_nodes() == update_where(
                old(self).spec_nodes(),
                node_id@,
                |n: MemoryNode| MemoryNode { affect: affect, ..n },
            ),
            final(self).same_but_nodes(old(self)),
    {
        let ghost f = |n: MemoryNode| MemoryNode { affect: affect, ..n };
        let ghost old_nodes = self.nodes@;
        match self.find_index(node_id) {
            Ok(i) => {
                self.nodes[i].affect = affect;
                proof {
                    lemma_update_where_at(old_nodes, i as int, f);
                    assert(self.nodes@ =~= old_nodes.update(i as int, f(old_nodes[i as int])));
                    lemma_same_ids_valid(old_nodes, self.nodes@, edge_views(self.edges@));
                }
                true
            },
            Err(_) => {
                proof {
                    lemma_update_where_absent(old_nodes, node_id@, f);
                }
                false
            },
        }
    }

    /// Record a HUMAN verdict on a recall (see [`after_feedback`]). The verdict moves
    /// retention, never ranking; importance never exceeds the provenance ceiling, and a
    /// rejection weighs more than a confirmation. Returns false if the node does not exist.
    pub fn record_human_feedback(&mut self, node_id: &str, helpful: bool) -> (r: bool)
        requires
            old(self).wf(),
        ensures
            final(self).wf(),
            r == has_id(old(self).spec_nodes(), node_id@),
            final(self).spec_nodes() == update_where(
                old(self).spec_nodes(),
                node_id@,
                |n: MemoryNode| after_feedback(n, helpful),
            ),
            final(self).same_but_nodes(old(self)),
    {
        let ghost f = |n: MemoryNode| after_feedback(n, helpful);
        let ghost old_nodes = self.nodes@;
        match self.find_index(node_id) {
            Ok(i) => {
                let cap = self.nodes[i].source_type.max_importance_cap();
                let imp = self.nodes[i].importance;
                proof {
                    assert(node_valid(old_nodes[i as int]));
                    lemma_reject_step_units();
                }
                if helpful {
                    self.nodes[i].confirmations = self.nodes[i].confirmations.saturating_add(1);
                    let raised = add_nonneg(imp, CONFIRM_STEP);
                    self.nodes[i].importance = if raised < cap { raised } else { cap };
                } else {
                    self.nodes[i].rejections = self.nodes[i].rejections.saturating_add(1);
                    if REJECT_STEP < imp {
                        proof {
                            lemma_sub_lowers(imp, REJECT_STEP);
                        }
                        self.nodes[i].importance = sub_nonneg(imp, REJECT_STEP);
                    } else {
                        self.nodes[i].importance = 0;
                    }
                }
                proof {
                    lemma_update_where_at(old_nodes, i as int, f);
                    assert(self.nodes@ =~= old_nodes.update(i as int, f(old_nodes[i as int])));
                    lemma_same_ids_valid(old_nodes, self.nodes@, edge_views(self.edges@));
                }
                true
            },
            Err(_) => {
                proof {
                    lemma_update_where_absent(old_nodes, node_id@, f);
                }
                false
            },
        }
    }

    /// Promote every node a human confirmed at least `min_confirmations` times to canon
    /// `level`, making it eviction-proof. Self-description and nodes already canon are
    /// never promoted, and a non-canon `level` promotes nothing. Returns how many were
    /// promoted.
    pub fn promote_confirmed_to_canon(&mut self, min_confirmations: u32, level: CanonLevel) -> (promoted_count: usize)
        requires
            old(self).wf(),
        ensures
            final(self).wf(),
            final(self).same_but_nodes(old(self)),
            !level.spec_is_canon() ==> promoted_count == 0 && final(self).spec_nodes() == old(
                self,
            ).spec_nodes(),
            level.spec_is_canon() ==> {
                &&& promoted_count == count_promotable(old(self).spec_nodes(), min_confirmations)
                &&& final(self).spec_nodes() == old(self).spec_nodes().map_values(
                    |n: MemoryNode| promoted(n, min_confirmations, level),
                )
            },
    {
        if !level.is_canon() {
            return 0;
        }
        let ghost old_nodes = self.nodes@;
        let mut count: usize = 0;
        let mut i: usize = 0;
        while i < self.nodes.len()
            invariant
                level.spec_is_canon(),
                graph_valid(old_nodes, edge_views(self.edges@)),
                self.same_but_nodes(old(self)),
                self.edges == old(self).edges,
                i <= self.nodes@.len(),
                self.nodes@.len() == old_nodes.len(),
                count == count_promotable(old_nodes.subrange(0, i as int), min_confirmations),
                count <= i,
                forall|j: int| 0 <= j < i ==> #[trigger] self.nodes@[j] == promoted(old_nodes[j], min_confirmations, level),
                forall|j: int| i <= j < self.nodes@.len() ==> #[trigger] self.nodes@[j] == old_nodes[j],
            decreases self.nodes@.len() - i,
        {
            proof {
                assert(old_nodes.subrange(0, i + 1).drop_last() =~= old_nodes.subrange(0, i as int));
            }
            let n = &self.nodes[i];
            if !(n.canon_level.is_canon() || n.source_type.is_self_description() || n.confirmations < min_confirmations) {
                self.nodes[i].canon_level = level;
                self.nodes[i].is_ephemeral = false;
                count = count + 1;
            }
            i = i + 1;
        }
        proof {
            assert(old_nodes.subrange(0, old_nodes.len() as int) =~= old_nodes);
            assert(self.nodes@ =~= old_nodes.map_values(|n: MemoryNode| promoted(n, min_confirmations, level)));
            lemma_same_ids_valid(old_nodes, self.nodes@, edge_views(self.edges@));
        }
        count
    }

    /// Number of canon (non-ephemeral) nodes.
    pub fn canon_count(&self) -> (r: usize)
        ensures
            r == count_canon(self.spec_nodes()),
    {
        let mut count: usize = 0;
        let mut i: usize = 0;
        while i < self.nodes.len()
            invariant
                i <= self.nodes@.len(),
                count == count_canon(self.nodes@.subrange(0, i as int)),
                count <= i,
            decreases self.nodes@.len() - i,
        {
            proof {
                assert(self.nodes@.subrange(0, i + 1).drop_last() =~= self.nodes@.subrange(0, i as int));
            }
            if !self.nodes[i].is_ephemeral {
                count = count + 1;
            }
            i = i + 1;
        }
        proof {
            assert(self.nodes@.subrange(0, self.nodes@.len() as int) =~= self.nodes@);
        }
        count
    }

    /// The edges, in creation order.
    pub fn edges(&self) -> (r: &[MemoryEdge])
        ensures
            edge_views(r@) == self.spec_edges(),
    {
        self.edges.as_slice()
    }

    /// The hyperedges.
    pub fn hyperedges(&self) -> (r: &[HyperEdge])
        ensures
            r@ == self.spec_hyperedges(),
    {
        self.hyperedges.as_slice()
    }

    /// The ontology.
    pub fn topology(&self) -> (r: &Topology24Cell)
        ensures
            r.spec_cells() == self.spec_topology(),
    {
        &self.topology
    }

    /// The stored nodes, in increasing id order.
    pub fn nodes(&self) -> (r: &[MemoryNode])
        ensures
            r@ == self.spec_nodes(),
    {
        self.nodes.as_slice()
    }

    /// Number of stored nodes.
    pub fn len(&self) -> (r: usize)
        ensures
            r == self.spec_nodes().len(),
    {
        self.nodes.len()
    }

    /// No node is stored.
    pub fn is_empty(&self) -> (r: bool)
        ensures
            r == (self.spec_nodes().len() == 0),
    {
        self.nodes.len() == 0
    }

    /// The clusters visible to a persona: the public clusters, the persona's own, and
    /// optionally "system" and "private"; in ordered-set order.
    pub fn get_scope_clusters(&self, persona_name: &str, include_system: bool, include_private: bool) -> (r: Vec<String>)
        ensures
            strings_sorted(string_views(r@)),
            string_views(r@).to_set() == spec_scope_clusters(persona_name@, include_system, include_private),
    {
        let mut scope: Vec<String> = Vec::new();
        proof {
            assert(string_views(scope@).to_set() =~= Set::<Seq<char>>::empty());
        }
        insert_sorted_unique(&mut scope, "shared".to_owned());
        insert_sorted_unique(&mut scope, "work".to_owned());
        insert_sorted_unique(&mut scope, "personal".to_owned());
        insert_sorted_unique(&mut scope, "project".to_owned());
        insert_sorted_unique(&mut scope, persona_name.to_owned());
        if include_system {
            insert_sorted_unique(&mut scope, "system".to_owned());
        }
        if include_private {
            insert_sorted_unique(&mut scope, "private".to_owned());
        }
        proof {
            let base = set!["shared"@, "work"@, "personal"@, "project"@, persona_name@];
            assert(Set::<Seq<char>>::empty().insert("shared"@).insert("work"@).insert("personal"@).insert("project"@).insert(persona_name@) =~= base);
        }
        scope
    }

    /// Evict under capacity pressure until at most `max_nodes` remain. Canon nodes are
    /// never evicted (if canon alone exceeds `max_nodes`, all canon is kept); among
    /// ephemeral nodes the least valuable go first (see [`less_valuable`]). Edges touching
    /// evicted nodes go with them. Returns the number of nodes evicted.
    pub fn enforce_capacity(&mut self, max_nodes: usize) -> (removed: usize)
        requires
            old(self).wf(),
        ensures
            capacity_enforced(*old(self), *final(self), max_nodes, removed as nat),
    {
        let n = self.nodes.len();
        if n <= max_nodes {
            proof {
                assert(edges_among(edge_views(self.edges@), self.nodes@) =~= edge_views(self.edges@)) by {
                    let ev = edge_views(self.edges@);
                    let flags = ev.map_values(|e: EdgeView| has_id(self.nodes@, e.source_id) && has_id(self.nodes@, e.target_id));
                    let all = Seq::new(ev.len(), |k: int| true);
                    assert forall|k: int| 0 <= k < ev.len() implies #[trigger] flags[k] == all[k] by {
                        assert(has_id(self.nodes@, ev[k].source_id));
                        assert(has_id(self.nodes@, ev[k].target_id));
                    }
                    assert(flags =~= all);
                    lemma_mask_filter_all(ev);
                }
            }
            return 0;
        }
        let want = n - max_nodes;
        let ghost nodes = self.nodes@;
        let mut marks: Vec<bool> = Vec::new();
        let mut i: usize = 0;
        while i < n
            invariant
                n == nodes.len(),
                i <= n,
                marks@ == Seq::new(i as nat, |k: int| false),
            decreases n - i,
        {
            marks.push(false);
            i = i + 1;
        }
        proof {
            assert(count_true(marks@) == 0) by {
                lemma_count_true_mono(marks@, Seq::new(n as nat, |k: int| false));
                lemma_count_false(n as nat);
            }
        }
        let order = eviction_order(&self.nodes, 0, n);
        let mut removed: usize = 0;
        while removed < want && removed < order.len()
            invariant
                self.nodes@ == nodes,
                nodes_sorted(nodes),
                n == nodes.len(),
                marks@.len() == n,
                removed <= want,
                want == n - max_nodes,
                removed <= order@.len(),
                value_ranked(nodes, order@),
                forall|t: int| 0 <= t < order@.len() ==> #[trigger] order@[t] < n && nodes[order@[t] as int].is_ephemeral,
                forall|v: usize| v < n && nodes[v as int].is_ephemeral ==> order@.contains(v),
                forall|k: int| 0 <= k < n ==> (#[trigger] marks@[k] <==> exists|t: int| 0 <= t < removed && order@[t] == k),
                removed == count_true(marks@),
                forall|k: int| 0 <= k < n && #[trigger] marks@[k] ==> nodes[k].is_ephemeral,
                forall|a: int, b: int|
                    0 <= a < n && 0 <= b < n && #[trigger] marks@[a] && !#[trigger] marks@[b] && nodes[b].is_ephemeral
                        ==> less_valuable(nodes[a], nodes[b]),
            decreases want - removed,
        {
            let b = order[removed];
            let ghost before = marks@;
            proof {
                if before[b as int] {
                    let t = choose|t: int| 0 <= t < removed && order@[t] == b;
                    assert(less_valuable(nodes[order@[t] as int], nodes[order@[removed as int] as int]));
                    lemma_id_lt_irreflexive(nodes[b as int].id@);
                }
                lemma_count_true_set(marks@, b as int);
            }
            marks.set(b, true);
            proof {
                assert forall|k: int| 0 <= k < n implies (#[trigger] marks@[k] <==> exists|t: int| 0 <= t < removed + 1 && order@[t] == k) by {
                    if k == b {
                        assert(order@[removed as int] == k);
                    } else {
                        assert(marks@[k] == before[k]);
                        if exists|t: int| 0 <= t < removed + 1 && order@[t] == k {
                            let t = choose|t: int| 0 <= t < removed + 1 && order@[t] == k;
                            assert(t != removed);
                        }
                    }
                }
                assert forall|a: int, c: int|
                    0 <= a < n && 0 <= c < n && #[trigger] marks@[a] && !#[trigger] marks@[c] && nodes[c].is_ephemeral
                        implies less_valuable(nodes[a], nodes[c]) by {
                    assert(order@.contains(c as usize));
                    let t2 = choose|t2: int| 0 <= t2 < order@.len() && order@[t2] == c as usize;
                    let t1 = choose|t1: int| 0 <= t1 < removed + 1 && order@[t1] == a;
                    if t2 <= removed {
                        assert(marks@[c]);
                    }
                    assert(less_valuable(nodes[order@[t1] as int], nodes[order@[t2] as int]));
                }
            }
            removed = removed + 1;
        }
        proof {
            if removed < want {
                assert forall|k: int| 0 <= k < n && #[trigger] nodes[k].is_ephemeral implies marks@[k] by {
                    assert(order@.contains(k as usize));
                    let t = choose|t: int| 0 <= t < order@.len() && order@[t] == k as usize;
                }
            }
        }
        let ghost eph = ephemeral_flags(nodes);
        proof {
            lemma_count_true_mono(marks@, eph);
            if removed < want {
                assert(marks@ =~= eph);
            }
        }
        // survivors
        let mut keep: Vec<bool> = Vec::new();
        let mut i: usize = 0;
        while i < n
            invariant
                marks@.len() == n,
                i <= n,
                keep@.len() == i,
                forall|k: int| 0 <= k < i ==> #[trigger] keep@[k] == !marks@[k],
            decreases n - i,
        {
            keep.push(!marks[i]);
            i = i + 1;
        }
        // edges whose endpoints both survive
        let ghost old_edges = edge_views(self.edges@);
        let mut edge_keep: Vec<bool> = Vec::new();
        let mut k: usize = 0;
        while k < self.edges.len()
            invariant
                self.nodes@ == nodes,
                graph_valid(nodes, old_edges),
                old_edges == edge_views(self.edges@),
                marks@.len() == n,
                n == nodes.len(),
                k <= old_edges.len(),
                edge_keep@.len() == k,
                forall|j: int| 0 <= j < k ==> #[trigger] edge_keep@[j] == (
                    exists|a: int, b: int| 0 <= a < n && 0 <= b < n && nodes[a].id@ == old_edges[j].source_id
                        && nodes[b].id@ == old_edges[j].target_id && !marks@[a] && !marks@[b]),
            decreases old_edges.len() - k,
        {
            let e = &self.edges[k];
            assert(has_id(nodes, old_edges[k as int].source_id));
            assert(has_id(nodes, old_edges[k as int].target_id));
            let a = self.find_index(e.source_id.as_str());
            let b = self.find_index(e.target_id.as_str());
            let keep_edge = match (a, b) {
                (Ok(a), Ok(b)) => {
                    proof {
                        assert forall|a2: int, b2: int| 0 <= a2 < n && 0 <= b2 < n && nodes[a2].id@ == old_edges[k as int].source_id
                            && nodes[b2].id@ == old_edges[k as int].target_id implies a2 == a && b2 == b by {
                            lemma_ids_unique(nodes, a2, a as int);
                            lemma_ids_unique(nodes, b2, b as int);
                        }
                    }
                    !marks[a] && !marks[b]
                },
                _ => false,
            };
            edge_keep.push(keep_edge);
            k = k + 1;
        }
        let ghost flags = keep@;
        let mut taken: Vec<MemoryNode> = Vec::new();
        std::mem::swap(&mut taken, &mut self.nodes);
        self.nodes = filter_by_mask(taken, &keep);
        let mut taken_edges: Vec<MemoryEdge> = Vec::new();
        std::mem::swap(&mut taken_edges, &mut self.edges);
        let ghost raw_edges = taken_edges@;
        self.edges = filter_by_mask(taken_edges, &edge_keep);
        proof {
            lemma_filter_nodes(nodes, flags);
            let new_nodes = self.nodes@;
            lemma_mask_filter_len(nodes, flags);
            lemma_count_true_negation(marks@, flags);
            assert forall|j: int| 0 <= j < old_edges.len() implies #[trigger] edge_keep@[j] == (
                has_id(new_nodes, old_edges[j].source_id) && has_id(new_nodes, old_edges[j].target_id)) by {
                let a = choose|a: int| 0 <= a < n && nodes[a].id@ == old_edges[j].source_id;
                let b = choose|b: int| 0 <= b < n && nodes[b].id@ == old_edges[j].target_id;
                assert(has_id(new_nodes, nodes[a].id@) == flags[a]);
                assert(has_id(new_nodes, nodes[b].id@) == flags[b]);
                if edge_keep@[j] {
                    let (a2, b2) = choose|a2: int, b2: int| 0 <= a2 < n && 0 <= b2 < n && nodes[a2].id@ == old_edges[j].source_id
                        && nodes[b2].id@ == old_edges[j].target_id && !marks@[a2] && !marks@[b2];
                    lemma_ids_unique(nodes, a, a2);
                    lemma_ids_unique(nodes, b, b2);
                }
            }
            lemma_mask_filter_map(raw_edges, edge_keep@, |e: MemoryEdge| e@);
            lemma_filter_edges(nodes, new_nodes, old_edges, edge_keep@);
            if removed == 0 {
                assert forall|k: int| 0 <= k < n implies !marks@[k] by {
                    if marks@[k] {
                        lemma_count_true_pos(marks@, k);
                    }
                }
                assert(flags =~= Seq::new(nodes.len(), |k: int| true));
                lemma_mask_filter_all(nodes);
            }
        }
        removed
    }

    /// Positions of each edge's endpoints among the nodes.
    fn edge_ends(&self) -> (ends: Vec<(usize, usize)>)
        requires
            self.wf(),
        ensures
            ends@.len() == self.edges@.len(),
            forall|k: int|
                0 <= k < ends@.len() ==> {
                    &&& (#[trigger] ends@[k]).0 < self.nodes@.len()
                    &&& ends@[k].1 < self.nodes@.len()
                    &&& self.nodes@[ends@[k].0 as int].id@ == self.edges@[k].source_id@
                    &&& self.nodes@[ends@[k].1 as int].id@ == self.edges@[k].target_id@
                },
    {
        let mut ends: Vec<(usize, usize)> = Vec::new();
        let mut k: usize = 0;
        while k < self.edges.len()
            invariant
                self.wf(),
                k <= self.edges@.len(),
                ends@.len() == k,
                forall|j: int|
                    0 <= j < k ==> {
                        &&& (#[trigger] ends@[j]).0 < self.nodes@.len()
                        &&& ends@[j].1 < self.nodes@.len()
                        &&& self.nodes@[ends@[j].0 as int].id@ == self.edges@[j].source_id@
                        &&& self.nodes@[ends@[j].1 as int].id@ == self.edges@[j].target_id@
                    },
            decreases self.edges@.len() - k,
        {
            let ghost ev = edge_views(self.edges@);
            assert(ev[k as int] == self.edges@[k as int]@);
            assert(has_id(self.nodes@, ev[k as int].source_id));
            assert(has_id(self.nodes@, ev[k as int].target_id));
            let a = self.find_index(self.edges[k].source_id.as_str());
            let b = self.find_index(self.edges[k].target_id.as_str());
            match (a, b) {
                (Ok(a), Ok(b)) => {
                    ends.push((a, b));
                },
                _ => {
                    assert(false);
                    ends.push((0, 0));
                },
            }
            k = k + 1;
        }
        ends
    }

    /// Breadth-first closure over edges: every stored node within `hops` steps of the
    /// stored `seeds` (seeds included), in ordered-set (id) order. This is the
    /// associative-recall expansion.
    pub fn expand(&self, seeds: &[String], hops: usize) -> (r: Vec<String>)
        requires
            self.wf(),
        ensures
            string_views(r@) == reach_ids(self.spec_nodes(), self.spec_edges(), string_views(seeds@), hops as nat),
            strings_sorted(string_views(r@)),
            string_views(r@).to_set() == reach(self.spec_nodes(), self.spec_edges(), string_views(seeds@), hops as nat),
    {
        let n = self.nodes.len();
        let ghost nodes = self.nodes@;
        let ghost edges = edge_views(self.edges@);
        let ghost sv = string_views(seeds@);
        let ends = self.edge_ends();
        let mut seen: Vec<bool> = Vec::new();
        let mut i: usize = 0;
        while i < n
            invariant
                n == nodes.len(),
                i <= n,
                seen@ == Seq::new(i as nat, |k: int| false),
            decreases n - i,
        {
            seen.push(false);
            i = i + 1;
        }
        let mut s: usize = 0;
        while s < seeds.len()
            invariant
                self.wf(),
                nodes == self.nodes@,
                n == nodes.len(),
                sv == string_views(seeds@),
                s <= seeds@.len(),
                seen@.len() == n,
                forall|k: int| 0 <= k < n ==> (#[trigger] seen@[k] <==> string_views(seeds@).subrange(0, s as int).contains(nodes[k].id@)),
            decreases seeds@.len() - s,
        {
            let ghost before = seen@;
            let found = self.find_index(seeds[s].as_str());
            match found {
                Ok(k) => {
                    seen.set(k, true);
                },
                Err(_) => {},
            }
            proof {
                let pre = sv.subrange(0, s as int);
                let post = sv.subrange(0, s + 1);
                assert(sv[s as int] == seeds@[s as int]@);
                assert(post =~= pre.push(sv[s as int]));
                assert forall|k: int| 0 <= k < n implies (#[trigger] seen@[k] <==> post.contains(nodes[k].id@)) by {
                    if nodes[k].id@ == sv[s as int] {
                        match found {
                            Ok(k0) => {
                                lemma_ids_unique(nodes, k, k0 as int);
                            },
                            Err(_) => {},
                        }
                        assert(post[s as int] == nodes[k].id@);
                    } else {
                        match found {
                            Ok(k0) => {
                                assert(k != k0);
                            },
                            Err(_) => {},
                        }
                        assert(seen@[k] == before[k]);
                        if post.contains(nodes[k].id@) {
                            let w = choose|w: int| 0 <= w < post.len() && post[w] == nodes[k].id@;
                            assert(w < s);
                            assert(pre[w] == nodes[k].id@);
                        }
                        if pre.contains(nodes[k].id@) {
                            let w = choose|w: int| 0 <= w < pre.len() && pre[w] == nodes[k].id@;
                            assert(post[w] == nodes[k].id@);
                        }
                    }
                }
            }
            s = s + 1;
        }
        proof {
            assert(sv.subrange(0, seeds@.len() as int) =~= sv);
            assert forall|k: int| 0 <= k < n implies (#[trigger] seen@[k] <==> reach(nodes, edges, sv, 0).contains(nodes[k].id@)) by {
                lemma_node_of_at(nodes, k);
            }
        }
        let mut frontier: Vec<bool> = crate::util::copy_bools(&seen);
        let mut h: usize = 0;
        while h < hops
            invariant
                self.wf(),
                nodes == self.nodes@,
                edges == edge_views(self.edges@),
                n == nodes.len(),
                h <= hops,
                seen@.len() == n,
                frontier@.len() == n,
                ends@.len() == edges.len(),
                forall|k: int|
                    0 <= k < ends@.len() ==> {
                        &&& (#[trigger] ends@[k]).0 < n
                        &&& ends@[k].1 < n
                        &&& nodes[ends@[k].0 as int].id@ == edges[k].source_id
                        &&& nodes[ends@[k].1 as int].id@ == edges[k].target_id
                    },
                forall|k: int| 0 <= k < n ==> (#[trigger] seen@[k] <==> reach(nodes, edges, sv, h as nat).contains(nodes[k].id@)),
                forall|k: int| 0 <= k < n && #[trigger] frontier@[k] ==> seen@[k],
                forall|k: int|
                    0 <= k < ends@.len() ==> {
                        &&& (seen@[(#[trigger] ends@[k]).0 as int] && !frontier@[ends@[k].0 as int] ==> seen@[ends@[k].1 as int])
                        &&& (seen@[ends@[k].1 as int] && !frontier@[ends@[k].1 as int] ==> seen@[ends@[k].0 as int])
                    },
            ensures
                seen@.len() == n,
                forall|k: int| 0 <= k < n ==> (#[trigger] seen@[k] <==> reach(nodes, edges, sv, hops as nat).contains(nodes[k].id@)),
            decreases hops - h,
        {
            let ghost old_seen = seen@;
            let mut next: Vec<bool> = Vec::new();
            let mut i: usize = 0;
            while i < n
                invariant
                    i <= n,
                    next@ == Seq::new(i as nat, |k: int| false),
                decreases n - i,
            {
                next.push(false);
                i = i + 1;
            }
            let mut any = false;
            let mut k: usize = 0;
            while k < ends.len()
                invariant
                    n == nodes.len(),
                    k <= ends@.len(),
                    seen@.len() == n,
                    next@.len() == n,
                    frontier@.len() == n,
                    old_seen.len() == n,
                    forall|j: int| 0 <= j < ends@.len() ==> (#[trigger] ends@[j]).0 < n && ends@[j].1 < n,
                    forall|x: int| 0 <= x < n && #[trigger] frontier@[x] ==> old_seen[x],
                    forall|x: int|
                        0 <= x < n ==> (#[trigger] seen@[x] <==> (old_seen[x] || exists|j: int|
                            0 <= j < k && ((frontier@[ends@[j].0 as int] && ends@[j].1 == x)
                                || (frontier@[ends@[j].1 as int] && ends@[j].0 == x)))),
                    forall|x: int| 0 <= x < n ==> (#[trigger] next@[x] <==> (seen@[x] && !old_seen[x])),
                    any <==> exists|x: int| 0 <= x < n && #[trigger] next@[x],
                decreases ends@.len() - k,
            {
                let (a, b) = ends[k];
                if frontier[a] && !seen[b] {
                    seen.set(b, true);
                    next.set(b, true);
                    any = true;
                    assert(next@[b as int]);
                }
                if frontier[b] && !seen[a] {
                    seen.set(a, true);
                    next.set(a, true);
                    any = true;
                    assert(next@[a as int]);
                }
                proof {
                    assert forall|x: int| 0 <= x < n implies (#[trigger] seen@[x] <==> (old_seen[x] || exists|j: int|
                            0 <= j < k + 1 && ((frontier@[ends@[j].0 as int] && ends@[j].1 == x)
                                || (frontier@[ends@[j].1 as int] && ends@[j].0 == x)))) by {
                        if exists|j: int| 0 <= j < k + 1 && ((frontier@[ends@[j].0 as int] && ends@[j].1 == x)
                                || (frontier@[ends@[j].1 as int] && ends@[j].0 == x)) {
                            let j = choose|j: int| 0 <= j < k + 1 && ((frontier@[ends@[j].0 as int] && ends@[j].1 == x)
                                || (frontier@[ends@[j].1 as int] && ends@[j].0 == x));
                            if j < k {
                                assert(exists|j2: int| 0 <= j2 < k && ((frontier@[ends@[j2].0 as int] && ends@[j2].1 == x)
                                || (frontier@[ends@[j2].1 as int] && ends@[j2].0 == x)));
                            }
                        }
                    }
                }
                k = k + 1;
            }
            proof {
                lemma_bfs_step(nodes, edges, sv, h as nat, old_seen, seen@, frontier@, ends@);
            }
            if !any {
                proof {
                    assert forall|x: int| 0 <= x < n implies #[trigger] seen@[x] == old_seen[x] by {
                        if seen@[x] && !old_seen[x] {
                            assert(next@[x]);
                        }
                    }
                    assert(seen@ =~= old_seen);
                    assert(reach(nodes, edges, sv, (h + 1) as nat) =~= reach(nodes, edges, sv, h as nat)) by {
                        assert forall|y: Seq<char>| reach(nodes, edges, sv, (h + 1) as nat).contains(y) implies reach(nodes, edges, sv, h as nat).contains(y) by {
                            lemma_reach_in_nodes(nodes, edges, sv, (h + 1) as nat, y);
                            let k = choose|k: int| 0 <= k < n && nodes[k].id@ == y;
                            assert(seen@[k] == old_seen[k]);
                        }
                    }
                    lemma_reach_stable(nodes, edges, sv, h as nat, hops as nat);
                }
                break;
            }
            proof {
                assert forall|j: int|
                    0 <= j < ends@.len() implies {
                        &&& (seen@[(#[trigger] ends@[j]).0 as int] && !next@[ends@[j].0 as int] ==> seen@[ends@[j].1 as int])
                        &&& (seen@[ends@[j].1 as int] && !next@[ends@[j].1 as int] ==> seen@[ends@[j].0 as int])
                    } by {
                    let a = ends@[j].0 as int;
                    let b = ends@[j].1 as int;
                    if seen@[a] && !next@[a] {
                        assert(old_seen[a]);
                        if frontier@[a] {
                            assert(seen@[b]);
                        }
                    }
                    if seen@[b] && !next@[b] {
                        assert(old_seen[b]);
                        if frontier@[b] {
                            assert(seen@[a]);
                        }
                    }
                }
            }
            frontier = next;
            h = h + 1;
        }
        // collect the reached ids in node order
        let mut out: Vec<String> = Vec::new();
        let mut i: usize = 0;
        while i < n
            invariant
                n == nodes.len(),
                nodes == self.nodes@,
                nodes_sorted(nodes),
                i <= n,
                seen@.len() == n,
                string_views(out@) == flagged_ids(nodes.subrange(0, i as int), seen@.subrange(0, i as int)),
            decreases n - i,
        {
            if seen[i] {
                out.push(self.nodes[i].id.clone());
            }
            proof {
                let ids = nodes.subrange(0, i + 1).map_values(|m: MemoryNode| m.id@);
                assert(nodes.subrange(0, i + 1).map_values(|m: MemoryNode| m.id@).drop_last() =~= nodes.subrange(0, i as int).map_values(|m: MemoryNode| m.id@));
                assert(seen@.subrange(0, i + 1).subrange(0, i as int) =~= seen@.subrange(0, i as int));
                assert(string_views(out@) =~= flagged_ids(nodes.subrange(0, i + 1), seen@.subrange(0, i + 1)));
            }
            i = i + 1;
        }
        proof {
            assert(nodes.subrange(0, n as int) =~= nodes);
            assert(seen@.subrange(0, n as int) =~= seen@);
            lemma_flagged_ids_sorted(nodes, seen@);
            let target = reach(nodes, edges, sv, hops as nat);
            assert forall|y: Seq<char>| string_views(out@).contains(y) <==> target.contains(y) by {
                let ids = nodes.map_values(|m: MemoryNode| m.id@);
                let idx = lemma_mask_filter_indices(ids, seen@);
                if string_views(out@).contains(y) {
                    let q = choose|q: int| 0 <= q < string_views(out@).len() && string_views(out@)[q] == y;
                    assert(ids[idx[q]] == y);
                }
                if target.contains(y) {
                    lemma_reach_in_nodes(nodes, edges, sv, hops as nat, y);
                    let k = choose|k: int| 0 <= k < n && nodes[k].id@ == y;
                    assert(seen@[k]);
                    let q = choose|q: int| 0 <= q < idx.len() && idx[q] == k;
                    assert(string_views(out@)[q] == y);
                }
            }
            assert(string_views(out@).to_set() =~= target);
            assert(seen@ =~= nodes.map_values(|m: MemoryNode| target.contains(m.id@)));
        }
        out
    }

    /// Associative recall from a ranked seed set (the top cosine matches): expands `hops`
    /// steps over edges and returns the reached seeds first, in seed order, then the other
    /// reached nodes in id order.
    pub fn associative_recall(&self, seeds: &[String], hops: usize) -> (r: Vec<String>)
        requires
            self.wf(),
        ensures
            string_views(r@) == recall_order(
                string_views(seeds@),
                reach_ids(self.spec_nodes(), self.spec_edges(), string_views(seeds@), hops as nat),
            ),
    {
        let reached = self.expand(seeds, hops);
        let ghost sv = string_views(seeds@);
        let ghost rv = string_views(reached@);
        let mut out: Vec<String> = Vec::new();
        let mut i: usize = 0;
        while i < seeds.len()
            invariant
                i <= seeds@.len(),
                sv == string_views(seeds@),
                rv == string_views(reached@),
                string_views(out@) == mask_filter(sv.subrange(0, i as int), sv.subrange(0, i as int).map_values(|x: Seq<char>| rv.contains(x))),
            decreases seeds@.len() - i,
        {
            proof {
                let a = sv.subrange(0, i + 1);
                assert(a.drop_last() =~= sv.subrange(0, i as int));
                assert(a.map_values(|x: Seq<char>| rv.contains(x)).subrange(0, i as int) =~= sv.subrange(0, i as int).map_values(|x: Seq<char>| rv.contains(x)));
                assert(rv.contains(seeds@[i as int]@) == exists|j: int| 0 <= j < reached@.len() && #[trigger] reached@[j]@ == seeds@[i as int]@) by {
                    if rv.contains(seeds@[i as int]@) {
                        let j = choose|j: int| 0 <= j < rv.len() && rv[j] == seeds@[i as int]@;
                        assert(reached@[j]@ == rv[j]);
                    }
                    if exists|j: int| 0 <= j < reached@.len() && #[trigger] reached@[j]@ == seeds@[i as int]@ {
                        let j = choose|j: int| 0 <= j < reached@.len() && #[trigger] reached@[j]@ == seeds@[i as int]@;
                        assert(rv[j] == reached@[j]@);
                    }
                }
            }
            if contains_string(reached.as_slice(), seeds[i].as_str()) {
                out.push(seeds[i].clone());
            }
            proof {
                assert(string_views(out@) =~= mask_filter(sv.subrange(0, i + 1), sv.subrange(0, i + 1).map_values(|x: Seq<char>| rv.contains(x))));
            }
            i = i + 1;
        }
        let ghost first = string_views(out@);
        let mut j: usize = 0;
        while j < reached.len()
            invariant
                j <= reached@.len(),
                sv == string_views(seeds@),
                rv == string_views(reached@),
                string_views(out@) == first + mask_filter(rv.subrange(0, j as int), rv.subrange(0, j as int).map_values(|x: Seq<char>| !sv.contains(x))),
            decreases reached@.len() - j,
        {
            proof {
                let a = rv.subrange(0, j + 1);
                assert(a.drop_last() =~= rv.subrange(0, j as int));
                assert(a.map_values(|x: Seq<char>| !sv.contains(x)).subrange(0, j as int) =~= rv.subrange(0, j as int).map_values(|x: Seq<char>| !sv.contains(x)));
                assert(sv.contains(reached@[j as int]@) == exists|k: int| 0 <= k < seeds@.len() && #[trigger] seeds@[k]@ == reached@[j as int]@) by {
                    if sv.contains(reached@[j as int]@) {
                        let k = choose|k: int| 0 <= k < sv.len() && sv[k] == reached@[j as int]@;
                        assert(seeds@[k]@ == sv[k]);
                    }
                    if exists|k: int| 0 <= k < seeds@.len() && #[trigger] seeds@[k]@ == reached@[j as int]@ {
                        let k = choose|k: int| 0 <= k < seeds@.len() && #[trigger] seeds@[k]@ == reached@[j as int]@;
                        assert(sv[k] == seeds@[k]@);
                    }
                }
            }
            let ghost before = string_views(out@);
            if !contains_string(seeds, reached[j].as_str()) {
                out.push(reached[j].clone());
            }
            proof {
                let m1 = mask_filter(rv.subrange(0, j as int), rv.subrange(0, j as int).map_values(|x: Seq<char>| !sv.contains(x)));
                let m2 = mask_filter(rv.subrange(0, j + 1), rv.subrange(0, j + 1).map_values(|x: Seq<char>| !sv.contains(x)));
                if !sv.contains(rv[j as int]) {
                    assert(m2 == m1.push(rv[j as int]));
                    assert(string_views(out@) =~= before.push(rv[j as int]));
                } else {
                    assert(m2 == m1);
                }
                assert(string_views(out@) =~= first + mask_filter(rv.subrange(0, j + 1), rv.subrange(0, j + 1).map_values(|x: Seq<char>| !sv.contains(x))));
            }
            j = j + 1;
        }
        proof {
            assert(sv.subrange(0, sv.len() as int) =~= sv);
            assert(rv.subrange(0, rv.len() as int) =~= rv);
        }
        out
    }

    /// For each node position, the edges touching it, in increasing order.
    fn touching_lists(&self, ends: &Vec<(usize, usize)>) -> (t: Vec<Vec<usize>>)
        requires
            self.wf(),
            ends_match(self.nodes@, edge_views(self.edges@), ends@),
        ensures
            t@.len() == self.nodes@.len(),
            forall|x: int| 0 <= x < t@.len() ==> #[trigger] t@[x]@ == touching(ends@, x, ends@.len() as int),
    {
        let n = self.nodes.len();
        let mut t: Vec<Vec<usize>> = Vec::new();
        let mut i: usize = 0;
        while i < n
            invariant
                i <= n,
                t@.len() == i,
                forall|x: int| 0 <= x < i ==> #[trigger] t@[x]@ == touching(ends@, x, 0),
            decreases n - i,
        {
            t.push(Vec::new());
            proof {
                assert(t@[i as int]@ =~= touching(ends@, i as int, 0));
            }
            i = i + 1;
        }
        let mut k: usize = 0;
        while k < ends.len()
            invariant
                n == self.nodes@.len(),
                ends_match(self.nodes@, edge_views(self.edges@), ends@),
                edges_valid(self.nodes@, edge_views(self.edges@)),
                k <= ends@.len(),
                t@.len() == n,
                forall|x: int| 0 <= x < n ==> #[trigger] t@[x]@ == touching(ends@, x, k as int),
            decreases ends@.len() - k,
        {
            let (a, b) = ends[k];
            proof {
                let ev = edge_views(self.edges@);
                assert(ev[k as int].source_id != ev[k as int].target_id);
                assert(a != b);
            }
            let ghost before = t@;
            t[a].push(k);
            t[b].push(k);
            proof {
                assert forall|x: int| 0 <= x < n implies #[trigger] t@[x]@ == touching(ends@, x, k + 1) by {
                    if x == a as int {
                        assert(t@[x]@ == before[x]@.push(k));
                    } else if x == b as int {
                        assert(t@[x]@ == before[x]@.push(k));
                    } else {
                        assert(t@[x] == before[x]);
                    }
                }
            }
            k = k + 1;
        }
        t
    }

    /// The curvature of every edge, in edge order.
    fn edge_curvatures(&self, ends: &Vec<(usize, usize)>, t: &Vec<Vec<usize>>) -> (curv: Vec<i128>)
        requires
            self.wf(),
            ends_match(self.nodes@, edge_views(self.edges@), ends@),
            t@.len() == self.nodes@.len(),
            forall|x: int| 0 <= x < t@.len() ==> #[trigger] t@[x]@ == touching(ends@, x, ends@.len() as int),
        ensures
            curv@.len() == self.edges@.len(),
            forall|k: int| 0 <= k < curv@.len() ==> #[trigger] curv@[k] == edge_curvature(edge_views(self.edges@), k),
    {
        let n = self.nodes.len();
        let ghost nodes = self.nodes@;
        let ghost edges = edge_views(self.edges@);
        let ghost m = ends@.len() as int;
        let _ends_len = ends.len();
        let mut mark: Vec<bool> = Vec::new();
        let mut i: usize = 0;
        while i < n
            invariant
                i <= n,
                mark@ == Seq::new(i as nat, |w: int| false),
            decreases n - i,
        {
            mark.push(false);
            i = i + 1;
        }
        let mut curv: Vec<i128> = Vec::new();
        let mut k: usize = 0;
        while k < ends.len()
            invariant
                self.wf(),
                nodes == self.nodes@,
                edges == edge_views(self.edges@),
                n == nodes.len(),
                m == ends@.len(),
                m <= usize::MAX,
                ends_match(nodes, edges, ends@),
                t@.len() == n,
                forall|x: int| 0 <= x < t@.len() ==> #[trigger] t@[x]@ == touching(ends@, x, m),
                mark@ == Seq::new(n as nat, |w: int| false),
                k <= m,
                curv@.len() == k,
                forall|j: int| 0 <= j < k ==> #[trigger] curv@[j] == edge_curvature(edges, j),
            decreases m - k,
        {
            let (a, b) = ends[k];
            let lb = &t[b];
            let la = &t[a];
            proof {
                lemma_count_touching(ends@, b as int, m, |j: int| true);
                lemma_count_touching(ends@, a as int, m, |j: int| true);
            }
            // mark the far ends of the edges at b
            let mut i: usize = 0;
            while i < lb.len()
                invariant
                    n == nodes.len(),
                    ends_match(nodes, edges, ends@),
                    m == ends@.len(),
                    b < n,
                    lb@ == touching(ends@, b as int, m),
                    forall|q: int| 0 <= q < lb@.len() ==> #[trigger] lb@[q] < m && touches(ends@, lb@[q] as int, b as int),
                    i <= lb@.len(),
                    mark@.len() == n,
                    forall|w: int| 0 <= w < n ==> (#[trigger] mark@[w] <==> exists|q: int|
                        0 <= q < i && other_pos(ends@, lb@[q] as int, b as int) == w),
                decreases lb@.len() - i,
            {
                let j = lb[i];
                let w = if ends[j].0 == b { ends[j].1 } else { ends[j].0 };
                let ghost before = mark@;
                mark.set(w, true);
                proof {
                    assert forall|x: int| 0 <= x < n implies (#[trigger] mark@[x] <==> exists|q: int|
                        0 <= q < i + 1 && other_pos(ends@, lb@[q] as int, b as int) == x) by {
                        if x == w as int {
                            assert(other_pos(ends@, lb@[i as int] as int, b as int) == x);
                        } else if exists|q: int| 0 <= q < i + 1 && other_pos(ends@, lb@[q] as int, b as int) == x {
                            let q = choose|q: int| 0 <= q < i + 1 && other_pos(ends@, lb@[q] as int, b as int) == x;
                            assert(q < i);
                            assert(before[x]);
                        }
                    }
                }
                i = i + 1;
            }
            let ghost marked = mark@;
            proof {
                lemma_marks_linked(nodes, edges, ends@, b as int, marked);
                lemma_triangles_by_position(nodes, edges, ends@, a as int, b as int, marked);
                lemma_count_touching(ends@, a as int, m, |j: int| marked[other_pos(ends@, j, a as int)]);
            }
            // count the far ends of the edges at a that are marked
            let mut c: usize = 0;
            let mut i: usize = 0;
            while i < la.len()
                invariant
                    n == nodes.len(),
                    ends_match(nodes, edges, ends@),
                    m == ends@.len(),
                    a < n,
                    la@ == touching(ends@, a as int, m),
                    forall|q: int| 0 <= q < la@.len() ==> #[trigger] la@[q] < m && touches(ends@, la@[q] as int, a as int),
                    mark@ == marked,
                    marked.len() == n,
                    i <= la@.len(),
                    c <= i,
                    c == count_true(la@.subrange(0, i as int).map_values(|j: usize| marked[other_pos(ends@, j as int, a as int)])),
                decreases la@.len() - i,
            {
                let j = la[i];
                let w = if ends[j].0 == a { ends[j].1 } else { ends[j].0 };
                proof {
                    let f = |j: usize| marked[other_pos(ends@, j as int, a as int)];
                    assert(la@.subrange(0, i + 1).map_values(f).drop_last() =~= la@.subrange(0, i as int).map_values(f));
                    assert(la@.subrange(0, i + 1).map_values(f).last() == marked[w as int]);
                }
                if mark[w] {
                    c = c + 1;
                }
                i = i + 1;
            }
            proof {
                assert(la@.subrange(0, la@.len() as int) =~= la@);
            }
            // clear the marks again
            let mut i: usize = 0;
            while i < lb.len()
                invariant
                    n == nodes.len(),
                    ends_match(nodes, edges, ends@),
                    m == ends@.len(),
                    b < n,
                    lb@ == touching(ends@, b as int, m),
                    forall|q: int| 0 <= q < lb@.len() ==> #[trigger] lb@[q] < m && touches(ends@, lb@[q] as int, b as int),
                    i <= lb@.len(),
                    mark@.len() == n,
                    forall|w: int| 0 <= w < n && #[trigger] mark@[w] ==> exists|q: int|
                        i <= q < lb@.len() && other_pos(ends@, lb@[q] as int, b as int) == w,
                decreases lb@.len() - i,
            {
                let j = lb[i];
                let w = if ends[j].0 == b { ends[j].1 } else { ends[j].0 };
                let ghost before = mark@;
                mark.set(w, false);
                proof {
                    assert forall|x: int| 0 <= x < n && #[trigger] mark@[x] implies exists|q: int|
                        i + 1 <= q < lb@.len() && other_pos(ends@, lb@[q] as int, b as int) == x by {
                        assert(before[x]);
                        let q = choose|q: int| i <= q < lb@.len() && other_pos(ends@, lb@[q] as int, b as int) == x;
                        assert(q != i);
                    }
                }
                i = i + 1;
            }
            proof {
                assert(mark@ =~= Seq::new(n as nat, |w: int| false));
                lemma_count_all_true(la@);
                lemma_count_all_true(lb@);
                lemma_degree_by_position(nodes, edges, ends@, a as int);
                lemma_degree_by_position(nodes, edges, ends@, b as int);
                let tri_seq = Seq::new(edges.len(), |j: int| touches(ends@, j, a as int) && marked[other_pos(ends@, j, a as int)]);
                assert(edges[k as int].source_id == nodes[a as int].id@);
                assert(edges[k as int].target_id == nodes[b as int].id@);
                assert(la@.map_values(|j: usize| true) =~= touching(ends@, a as int, m).map_values(|j: usize| (|j: int| true)(j as int)));
                assert(lb@.map_values(|j: usize| true) =~= touching(ends@, b as int, m).map_values(|j: usize| (|j: int| true)(j as int)));
                assert(Seq::new(m as nat, |j: int| touches(ends@, j, a as int) && (|j: int| true)(j)) =~= Seq::new(edges.len(), |j: int| touches(ends@, j, a as int)));
                assert(Seq::new(m as nat, |j: int| touches(ends@, j, b as int) && (|j: int| true)(j)) =~= Seq::new(edges.len(), |j: int| touches(ends@, j, b as int)));
                assert(la@.map_values(|j: usize| marked[other_pos(ends@, j as int, a as int)]) =~= touching(ends@, a as int, m).map_values(|j: usize| (|j: int| marked[other_pos(ends@, j, a as int)])(j as int)));
                assert(Seq::new(m as nat, |j: int| touches(ends@, j, a as int) && (|j: int| marked[other_pos(ends@, j, a as int)])(j)) =~= tri_seq);
            }
            let value: i128 = 4 - (la.len() as i128) - (lb.len() as i128) + 3 * (c as i128);
            curv.push(value);
            k = k + 1;
        }
        curv
    }

    /// Prune redundant edges by Forman-Ricci curvature. High curvature means the edge sits
    /// inside a dense cluster (redundant); negative curvature marks a bridge, which is kept.
    /// Edges are considered from the highest curvature down (ties in edge order); one is
    /// removed only if its curvature exceeds `min_curvature` and neither endpoint would be
    /// left without an edge (see [`prune_rule`]). Returns the number of edges pruned.
    pub fn prune_redundant_edges(&mut self, min_curvature: i128) -> (pruned: usize)
        requires
            old(self).wf(),
        ensures
            final(self).wf(),
            exists|removed: Seq<bool>|
                {
                    &&& is_prune_result(old(self).spec_edges(), removed, min_curvature as int)
                    &&& final(self).spec_edges() == mask_filter(old(self).spec_edges(), negate(removed))
                    &&& pruned == count_true(removed)
                },
            final(self).spec_nodes() == old(self).spec_nodes(),
            final(self).spec_clock() == old(self).spec_clock(),
            final(self).spec_id_seed() == old(self).spec_id_seed(),
            final(self).spec_topology() == old(self).spec_topology(),
            final(self).spec_hyperedges() == old(self).spec_hyperedges(),
    {
        let ghost nodes = self.nodes@;
        let ghost gh = edge_views(self.edges@);
        let ends = self.edge_ends();
        proof {
            assert(ends_match(nodes, gh, ends@));
        }
        let t = self.touching_lists(&ends);
        let curv = self.edge_curvatures(&ends, &t);
        let n = self.nodes.len();
        let m = ends.len();
        // live degree of every node
        let mut live: Vec<usize> = Vec::new();
        let mut x: usize = 0;
        while x < n
            invariant
                n == nodes.len(),
                m == ends@.len(),
                m == gh.len(),
                nodes_sorted(nodes),
                ends_match(nodes, gh, ends@),
                t@.len() == n,
                forall|y: int| 0 <= y < t@.len() ==> #[trigger] t@[y]@ == touching(ends@, y, m as int),
                x <= n,
                live@.len() == x,
                forall|y: int| 0 <= y < x ==> #[trigger] live@[y] == degree(gh, nodes[y].id@),
            decreases n - x,
        {
            proof {
                lemma_count_touching(ends@, x as int, m as int, |j: int| true);
                lemma_count_all_true(t@[x as int]@);
                assert(t@[x as int]@.map_values(|j: usize| true) =~= touching(ends@, x as int, m as int).map_values(|j: usize| (|j: int| true)(j as int)));
                assert(Seq::new(m as nat, |j: int| touches(ends@, j, x as int) && (|j: int| true)(j)) =~= Seq::new(gh.len(), |j: int| touches(ends@, j, x as int)));
                lemma_degree_by_position(nodes, gh, ends@, x as int);
            }
            live.push(t[x].len());
            x = x + 1;
        }
        let mut processed: Vec<bool> = Vec::new();
        let mut removed: Vec<bool> = Vec::new();
        let mut k: usize = 0;
        while k < m
            invariant
                k <= m,
                processed@ == Seq::new(k as nat, |j: int| false),
                removed@ == Seq::new(k as nat, |j: int| false),
            decreases m - k,
        {
            processed.push(false);
            removed.push(false);
            k = k + 1;
        }
        proof {
            lemma_count_false(m as nat);
            assert forall|y: int| 0 <= y < n implies #[trigger] live@[y] == degree(gh, nodes[y].id@) - count_true(removed_at(removed@, ends@, y)) by {
                assert(removed_at(removed@, ends@, y) =~= Seq::new(m as nat, |l: int| false));
            }
        }
        let order = prune_order(&curv, 0, m);
        proof {
            assert forall|j: int| 0 <= j < m implies !(#[trigger] processed@[j]) by {}
        }
        let mut count: usize = 0;
        let mut steps: usize = 0;
        while steps < m
            invariant
                order@.len() == m,
                strictly_ranked(curv@, order@),
                forall|t: int| 0 <= t < m ==> #[trigger] order@[t] < m,
                forall|v: usize| v < m ==> order@.contains(v),
                forall|j: int| 0 <= j < m ==> (#[trigger] processed@[j] <==> exists|t: int| 0 <= t < steps && order@[t] == j),
                n == nodes.len(),
                m == ends@.len(),
                m == gh.len(),
                graph_valid(nodes, gh),
                ends_match(nodes, gh, ends@),
                curv@.len() == m,
                forall|j: int| 0 <= j < m ==> #[trigger] curv@[j] == edge_curvature(gh, j),
                processed@.len() == m,
                removed@.len() == m,
                live@.len() == n,
                steps == count_true(processed@),
                steps <= m,
                count == count_true(removed@),
                count <= steps,
                forall|j: int| 0 <= j < m && #[trigger] removed@[j] ==> processed@[j],
                forall|p: int, q: int| 0 <= p < m && 0 <= q < m && #[trigger] processed@[p] && !#[trigger] processed@[q] ==> prune_before(gh, p, q),
                forall|j: int| 0 <= j < m && #[trigger] processed@[j] ==> removed@[j] == prune_rule(gh, removed@, j, min_curvature as int),
                forall|j: int| 0 <= j < m && #[trigger] processed@[j] ==> edge_curvature(gh, j) > min_curvature,
                forall|y: int| 0 <= y < n ==> #[trigger] live@[y] == degree(gh, nodes[y].id@) - count_true(removed_at(removed@, ends@, y)),
                steps == m ==> forall|j: int| 0 <= j < m ==> #[trigger] removed@[j] == prune_rule(gh, removed@, j, min_curvature as int),
            ensures
                count == count_true(removed@),
                removed@.len() == m,
                forall|j: int| 0 <= j < m ==> #[trigger] removed@[j] == prune_rule(gh, removed@, j, min_curvature as int),
            decreases m - steps,
        {
            let k = order[steps];
            proof {
                if processed@[k as int] {
                    let t = choose|t: int| 0 <= t < steps && order@[t] == k;
                    assert(ranks_before(curv@, order@[t] as int, order@[steps as int] as int));
                }
                assert forall|q: int| 0 <= q < processed@.len() && q != k && !#[trigger] processed@[q] implies ranks_before(curv@, k as int, q) by {
                    assert(order@.contains(q as usize));
                    let t = choose|t: int| 0 <= t < order@.len() && order@[t] == q as usize;
                    if t < steps {
                        assert(processed@[q]);
                    }
                    assert(t != steps);
                    assert(ranks_before(curv@, order@[steps as int] as int, order@[t] as int));
                }
            }
            if curv[k] <= min_curvature {
                proof {
                    assert forall|j: int| 0 <= j < m implies #[trigger] removed@[j] == prune_rule(gh, removed@, j, min_curvature as int) by {
                        if !processed@[j] {
                            if j != k {
                                assert(ranks_before(curv@, k as int, j));
                            }
                        }
                    }
                }
                break;
            }
            let (a, b) = ends[k];
            let ghost old_removed = removed@;
            let ghost old_processed = processed@;
            proof {
                lemma_count_true_set(processed@, k as int);
                lemma_count_true_bound(processed@.update(k as int, true));
                lemma_touches_incident(nodes, gh, ends@, k as int, a as int);
                lemma_touches_incident(nodes, gh, ends@, k as int, b as int);
                // everything removed so far was considered before k
                assert forall|y: int| 0 <= y < n && (y == a || y == b) implies #[trigger] removed_at(old_removed, ends@, y)
                    =~= Seq::new(gh.len(), |l: int| old_removed[l] && prune_before(gh, l, k as int) && incident(gh[l], nodes[y].id@)) by {
                    assert forall|l: int| 0 <= l < m implies (old_removed[l] && touches(ends@, l, y)) == (old_removed[l] && prune_before(gh, l, k as int) && incident(gh[l], nodes[y].id@)) by {
                        lemma_touches_incident(nodes, gh, ends@, l, y);
                        if old_removed[l] {
                            assert(old_processed[l]);
                        }
                    }
                }
                assert(removed_at(old_removed, ends@, a as int) =~= Seq::new(gh.len(), |l: int| old_removed[l] && prune_before(gh, l, k as int) && incident(gh[l], nodes[a as int].id@)));
                assert(removed_at(old_removed, ends@, b as int) =~= Seq::new(gh.len(), |l: int| old_removed[l] && prune_before(gh, l, k as int) && incident(gh[l], nodes[b as int].id@)));
                assert(gh[k as int].source_id == nodes[a as int].id@);
                assert(gh[k as int].target_id == nodes[b as int].id@);
            }
            let ghost before_processed = processed@;
            processed.set(k, true);
            proof {
                assert forall|j: int| 0 <= j < m implies (#[trigger] processed@[j] <==> exists|t: int| 0 <= t < steps + 1 && order@[t] == j) by {
                    if j == k {
                        assert(order@[steps as int] == j);
                    } else {
                        assert(processed@[j] == before_processed[j]);
                        if exists|t: int| 0 <= t < steps + 1 && order@[t] == j {
                            let t = choose|t: int| 0 <= t < steps + 1 && order@[t] == j;
                            assert(t != steps);
                        }
                    }
                }
            }
            let take = live[a] > 1 && live[b] > 1;
            if take {
                proof {
                    lemma_count_true_set(removed@, k as int);
                }
                removed.set(k, true);
                live.set(a, live[a] - 1);
                live.set(b, live[b] - 1);
                count = count + 1;
            }
            proof {
                let nr = removed@;
                let np = processed@;
                assert(take == prune_rule(gh, old_removed, k as int, min_curvature as int));
                // the rule of an edge only reads edges considered before it
                assert forall|j: int| 0 <= j < m && #[trigger] np[j] implies nr[j] == prune_rule(gh, nr, j, min_curvature as int) by {
                    let u = gh[j].source_id;
                    let v = gh[j].target_id;
                    assert(Seq::new(gh.len(), |l: int| nr[l] && prune_before(gh, l, j) && incident(gh[l], u))
                        =~= Seq::new(gh.len(), |l: int| old_removed[l] && prune_before(gh, l, j) && incident(gh[l], u)));
                    assert(Seq::new(gh.len(), |l: int| nr[l] && prune_before(gh, l, j) && incident(gh[l], v))
                        =~= Seq::new(gh.len(), |l: int| old_removed[l] && prune_before(gh, l, j) && incident(gh[l], v)));
                    if j != k {
                        assert(old_processed[j]);
                        assert(prune_before(gh, j, k as int));
                    }
                }
                assert forall|p: int, q: int| 0 <= p < m && 0 <= q < m && #[trigger] np[p] && !#[trigger] np[q] implies prune_before(gh, p, q) by {
                    if p == k {
                        assert(ranks_before(curv@, k as int, q));
                    } else {
                        assert(old_processed[p]);
                        assert(!old_processed[q]);
                    }
                }
                assert forall|y: int| 0 <= y < n implies #[trigger] live@[y] == degree(gh, nodes[y].id@) - count_true(removed_at(nr, ends@, y)) by {
                    if take {
                        if touches(ends@, k as int, y) {
                            assert(removed_at(nr, ends@, y) =~= removed_at(old_removed, ends@, y).update(k as int, true));
                            lemma_count_true_set(removed_at(old_removed, ends@, y), k as int);
                        } else {
                            assert(removed_at(nr, ends@, y) =~= removed_at(old_removed, ends@, y));
                        }
                    } else {
                        assert(nr == old_removed);
                    }
                }
            }
            steps = steps + 1;
            proof {
                if steps == m {
                    crate::util::lemma_count_true_full(processed@);
                    assert forall|j: int| 0 <= j < m implies #[trigger] removed@[j] == prune_rule(gh, removed@, j, min_curvature as int) by {
                        assert(processed@[j]);
                    }
                }
            }
        }
        let ghost rem = removed@;
        proof {
            assert(is_prune_result(gh, rem, min_curvature as int));
        }
        let mut keep: Vec<bool> = Vec::new();
        let mut k: usize = 0;
        while k < m
            invariant
                removed@.len() == m,
                k <= m,
                keep@.len() == k,
                forall|j: int| 0 <= j < k ==> #[trigger] keep@[j] == !removed@[j],
            decreases m - k,
        {
            keep.push(!removed[k]);
            k = k + 1;
        }
        let mut taken_edges: Vec<MemoryEdge> = Vec::new();
        std::mem::swap(&mut taken_edges, &mut self.edges);
        let ghost raw_edges = taken_edges@;
        self.edges = filter_by_mask(taken_edges, &keep);
        proof {
            assert(keep@ =~= negate(rem));
            lemma_mask_filter_map(raw_edges, keep@, |e: MemoryEdge| e@);
            lemma_edges_subsequence_valid(nodes, gh, keep@);
            assert(is_prune_result(gh, rem, min_curvature as int));
        }
        count
    }

    /// Link nodes that share rare named entities (capitalized words, see
    /// [`spec_entities`]). An entity in more than `max_entity_freq` nodes is ignored; a
    /// pair sharing at least `min_shared` of the rest is linked ("sharedEntity"), weighted
    /// by the shared count. Returns the number of edges created.
    pub fn link_by_entities(&mut self, max_entity_freq: usize, min_shared: usize) -> (created: usize)
        requires
            old(self).wf(),
        ensures
            final(self).wf(),
            (final(self).spec_edges(), final(self).spec_id_seed()) == link_all_model(
                old(self).spec_nodes(),
                old(self).spec_edges(),
                old(self).spec_id_seed(),
                entity_pairs_from(old(self).spec_nodes(), 0, max_entity_freq, min_shared),
                "sharedEntity"@,
            ),
            created == final(self).spec_edges().len() - old(self).spec_edges().len(),
            final(self).spec_nodes() == old(self).spec_nodes(),
            final(self).spec_clock() == old(self).spec_clock(),
            final(self).spec_topology() == old(self).spec_topology(),
            final(self).spec_hyperedges() == old(self).spec_hyperedges(),
    {
        let n = self.nodes.len();
        let ghost nodes = self.nodes@;
        // entity tokens of every node
        let mut tokens: Vec<Vec<String>> = Vec::new();
        let mut i: usize = 0;
        while i < n
            invariant
                nodes == self.nodes@,
                n == nodes.len(),
                i <= n,
                tokens@.len() == i,
                forall|x: int| 0 <= x < i ==> {
                    &&& strings_sorted(string_views(#[trigger] tokens@[x]@))
                    &&& string_views(tokens@[x]@).to_set() == node_entities(nodes[x])
                },
            decreases n - i,
        {
            tokens.push(entities_of(self.nodes[i].content.as_str()));
            i = i + 1;
        }
        // frequency of each token of each node
        let mut freqs: Vec<Vec<usize>> = Vec::new();
        let mut i: usize = 0;
        while i < n
            invariant
                nodes == self.nodes@,
                n == nodes.len(),
                tokens@.len() == n,
                forall|x: int| 0 <= x < n ==> {
                    &&& strings_sorted(string_views(#[trigger] tokens@[x]@))
                    &&& string_views(tokens@[x]@).to_set() == node_entities(nodes[x])
                },
                i <= n,
                freqs@.len() == i,
                forall|x: int| 0 <= x < i ==> (#[trigger] freqs@[x])@.len() == tokens@[x]@.len(),
                forall|x: int, q: int| 0 <= x < i && 0 <= q < tokens@[x]@.len() ==> (#[trigger] freqs@[x]@[q]) == entity_freq(nodes, tokens@[x]@[q]@),
            decreases n - i,
        {
            let row = &tokens[i];
            let mut fr: Vec<usize> = Vec::new();
            let mut q: usize = 0;
            while q < row.len()
                invariant
                    n == nodes.len(),
                    tokens@.len() == n,
                    forall|x: int| 0 <= x < n ==> {
                        &&& strings_sorted(string_views(#[trigger] tokens@[x]@))
                        &&& string_views(tokens@[x]@).to_set() == node_entities(nodes[x])
                    },
                    q <= row@.len(),
                    fr@.len() == q,
                    forall|r: int| 0 <= r < q ==> (#[trigger] fr@[r]) == entity_freq(nodes, row@[r]@),
                decreases row@.len() - q,
            {
                let t = row[q].as_str();
                let mut cnt: usize = 0;
                let mut m: usize = 0;
                while m < n
                    invariant
                        n == nodes.len(),
                        tokens@.len() == n,
                        forall|x: int| 0 <= x < n ==> {
                            &&& strings_sorted(string_views(#[trigger] tokens@[x]@))
                            &&& string_views(tokens@[x]@).to_set() == node_entities(nodes[x])
                        },
                        m <= n,
                        cnt <= m,
                        cnt == count_true(nodes.subrange(0, m as int).map_values(|nd: MemoryNode| node_entities(nd).contains(t@))),
                    decreases n - m,
                {
                    proof {
                        let f = |nd: MemoryNode| node_entities(nd).contains(t@);
                        assert(nodes.subrange(0, m + 1).map_values(f).drop_last() =~= nodes.subrange(0, m as int).map_values(f));
                        let tv = string_views(tokens@[m as int]@);
                        assert(tv.to_set().contains(t@) == exists|k: int| 0 <= k < tokens@[m as int]@.len() && #[trigger] tokens@[m as int]@[k]@ == t@) by {
                            if tv.to_set().contains(t@) {
                                let k = choose|k: int| 0 <= k < tv.len() && tv[k] == t@;
                                assert(tokens@[m as int]@[k]@ == tv[k]);
                            }
                            if exists|k: int| 0 <= k < tokens@[m as int]@.len() && #[trigger] tokens@[m as int]@[k]@ == t@ {
                                let k = choose|k: int| 0 <= k < tokens@[m as int]@.len() && #[trigger] tokens@[m as int]@[k]@ == t@;
                                assert(tv[k] == t@);
                            }
                        }
                    }
                    if contains_string(tokens[m].as_slice(), t) {
                        cnt = cnt + 1;
                    }
                    m = m + 1;
                }
                proof {
                    assert(nodes.subrange(0, n as int) =~= nodes);
                }
                fr.push(cnt);
                q = q + 1;
            }
            freqs.push(fr);
            i = i + 1;
        }
        // candidate pairs
        let ghost all = entity_pairs_from(nodes, 0, max_entity_freq, min_shared);
        let mut pairs: Vec<(String, String, u32)> = Vec::new();
        let mut i: usize = 0;
        while i < n
            invariant
                nodes == self.nodes@,
                n == nodes.len(),
                tokens@.len() == n,
                freqs@.len() == n,
                forall|x: int| 0 <= x < n ==> {
                    &&& strings_sorted(string_views(#[trigger] tokens@[x]@))
                    &&& string_views(tokens@[x]@).to_set() == node_entities(nodes[x])
                },
                forall|x: int| 0 <= x < n ==> (#[trigger] freqs@[x])@.len() == tokens@[x]@.len(),
                forall|x: int, q: int| 0 <= x < n && 0 <= q < tokens@[x]@.len() ==> (#[trigger] freqs@[x]@[q]) == entity_freq(nodes, tokens@[x]@[q]@),
                i <= n,
                pair_views(pairs@) + entity_pairs_from(nodes, i as int, max_entity_freq, min_shared) == all,
            decreases n - i,
        {
            let mut j: usize = i + 1;
            proof {
                assert(entity_pairs_from(nodes, i as int, max_entity_freq, min_shared)
                    == entity_row(nodes, i as int, i + 1, max_entity_freq, min_shared) + entity_pairs_from(nodes, i + 1, max_entity_freq, min_shared));
                assert(pair_views(pairs@) + entity_row(nodes, i as int, j as int, max_entity_freq, min_shared)
                    + entity_pairs_from(nodes, i + 1, max_entity_freq, min_shared) =~= all);
            }
            while j < n
                invariant
                    nodes == self.nodes@,
                    n == nodes.len(),
                    i < n,
                    i < j <= n,
                    tokens@.len() == n,
                    freqs@.len() == n,
                    forall|x: int| 0 <= x < n ==> {
                        &&& strings_sorted(string_views(#[trigger] tokens@[x]@))
                        &&& string_views(tokens@[x]@).to_set() == node_entities(nodes[x])
                    },
                    forall|x: int| 0 <= x < n ==> (#[trigger] freqs@[x])@.len() == tokens@[x]@.len(),
                    forall|x: int, q: int| 0 <= x < n && 0 <= q < tokens@[x]@.len() ==> (#[trigger] freqs@[x]@[q]) == entity_freq(nodes, tokens@[x]@[q]@),
                    pair_views(pairs@) + entity_row(nodes, i as int, j as int, max_entity_freq, min_shared)
                        + entity_pairs_from(nodes, i + 1, max_entity_freq, min_shared) == all,
                decreases n - j,
            {
                let ti = &tokens[i];
                let fi = &freqs[i];
                let ghost p = |t: Seq<char>| node_entities(nodes[j as int]).contains(t) && entity_freq(nodes, t) <= max_entity_freq;
                let ghost tiv = string_views(ti@);
                let mut c: usize = 0;
                let mut q: usize = 0;
                while q < ti.len()
                    invariant
                        n == nodes.len(),
                        i < n,
                        j < n,
                        tokens@.len() == n,
                        ti == tokens@[i as int],
                        fi == freqs@[i as int],
                        tiv == string_views(ti@),
                        forall|x: int| 0 <= x < n ==> {
                            &&& strings_sorted(string_views(#[trigger] tokens@[x]@))
                            &&& string_views(tokens@[x]@).to_set() == node_entities(nodes[x])
                        },
                        fi@.len() == ti@.len(),
                        forall|r: int| 0 <= r < ti@.len() ==> (#[trigger] fi@[r]) == entity_freq(nodes, ti@[r]@),
                        q <= ti@.len(),
                        c <= q,
                        p == (|t: Seq<char>| node_entities(nodes[j as int]).contains(t) && entity_freq(nodes, t) <= max_entity_freq),
                        c == count_true(tiv.subrange(0, q as int).map_values(p)),
                    decreases ti@.len() - q,
                {
                    proof {
                        assert(tiv.subrange(0, q + 1).map_values(p).drop_last() =~= tiv.subrange(0, q as int).map_values(p));
                        let tj = string_views(tokens@[j as int]@);
                        let t = ti@[q as int]@;
                        assert(tiv[q as int] == t);
                        assert(tj.to_set().contains(t) == exists|k: int| 0 <= k < tokens@[j as int]@.len() && #[trigger] tokens@[j as int]@[k]@ == t) by {
                            if tj.to_set().contains(t) {
                                let k = choose|k: int| 0 <= k < tj.len() && tj[k] == t;
                                assert(tokens@[j as int]@[k]@ == tj[k]);
                            }
                            if exists|k: int| 0 <= k < tokens@[j as int]@.len() && #[trigger] tokens@[j as int]@[k]@ == t {
                                let k = choose|k: int| 0 <= k < tokens@[j as int]@.len() && #[trigger] tokens@[j as int]@[k]@ == t;
                                assert(tj[k] == t);
                            }
                        }
                    }
                    let hit = contains_string(tokens[j].as_slice(), ti[q].as_str()) && fi[q] <= max_entity_freq;
                    proof {
                        assert(hit == p(tiv[q as int]));
                        assert(tiv.subrange(0, q + 1).map_values(p).last() == p(tiv[q as int]));
                    }
                    if hit {
                        c = c + 1;
                    }
                    q = q + 1;
                }
                proof {
                    assert(tiv.subrange(0, ti@.len() as int) =~= tiv);
                    lemma_sorted_no_duplicates(tiv);
                    lemma_count_distinct(tiv, p);
                    assert(c == shared_rare(nodes, i as int, j as int, max_entity_freq));
                }
                let ghost before = pair_views(pairs@);
                if c >= min_shared {
                    let w = count_bits(c as u64);
                    pairs.push((self.nodes[i].id.clone(), self.nodes[j].id.clone(), w));
                    proof {
                        assert(pair_views(pairs@) =~= before.push((nodes[i as int].id@, nodes[j as int].id@, w)));
                    }
                }
                proof {
                    let here = if c >= min_shared {
                        seq![(nodes[i as int].id@, nodes[j as int].id@, spec_count_bits(c as u64))]
                    } else {
                        Seq::<(Seq<char>, Seq<char>, u32)>::empty()
                    };
                    assert(entity_row(nodes, i as int, j as int, max_entity_freq, min_shared)
                        == here + entity_row(nodes, i as int, j + 1, max_entity_freq, min_shared));
                    assert(pair_views(pairs@) =~= before + here);
                    assert(pair_views(pairs@) + entity_row(nodes, i as int, j + 1, max_entity_freq, min_shared)
                        + entity_pairs_from(nodes, i + 1, max_entity_freq, min_shared) =~= all);
                }
                j = j + 1;
            }
            proof {
                assert(entity_row(nodes, i as int, n as int, max_entity_freq, min_shared) =~= Seq::<(Seq<char>, Seq<char>, u32)>::empty());
                assert(pair_views(pairs@) + entity_pairs_from(nodes, i + 1, max_entity_freq, min_shared) =~= all);
            }
            i = i + 1;
        }
        proof {
            assert(entity_pairs_from(nodes, n as int, max_entity_freq, min_shared) =~= Seq::<(Seq<char>, Seq<char>, u32)>::empty());
            assert(pair_views(pairs@) =~= all);
        }
        self.link_pairs(&pairs, "sharedEntity")
    }

    /// Whether a node with this id is stored.
    pub fn contains_node(&self, node_id: &str) -> (r: bool)
        requires
            self.wf(),
        ensures
            r == has_id(self.spec_nodes(), node_id@),
    {
        match self.find_index(node_id) {
            Ok(_) => true,
            Err(_) => false,
        }
    }

    /// The node with this id, if stored.
    pub fn get_node(&self, node_id: &str) -> (r: Option<&MemoryNode>)
        requires
            self.wf(),
        ensures
            r is Some <==> has_id(self.spec_nodes(), node_id@),
            r matches Some(n) ==> *n == node_of(self.spec_nodes(), node_id@),
    {
        match self.find_index(node_id) {
            Ok(i) => {
                proof {
                    lemma_node_of_at(self.nodes@, i as int);
                }
                Some(&self.nodes[i])
            },
            Err(_) => None,
        }
    }
}

/// `new_g` is `old_g` after [`MemoryGraphNexus::create_node`] returned `id`: the id is
/// the generator's next one, the clock ticked, and a fresh node (see
/// [`fresh_node_fields`]) is stored under that id while every other node is unchanged.
pub open spec fn node_created(
    old_g: MemoryGraphNexus,
    new_g: MemoryGraphNexus,
    id: Seq<char>,
    content: String,
    summary: String,
    tags: Vec<String>,
    source_type: SourceType,
    cell_id: u8,
    explicit: Option<Seq<char>>,
    canon_level: CanonLevel,
) -> bool {
    &&& new_g.wf()
    &&& id == next_id_spec(old_g.spec_id_seed())
    &&& new_g.spec_id_seed() == splitmix_advance(old_g.spec_id_seed())
    &&& new_g.spec_clock() == old_g.spec_clock().wrapping_add(1)
    &&& new_g.spec_edges() == old_g.spec_edges()
    &&& new_g.spec_topology() == old_g.spec_topology()
    &&& new_g.spec_hyperedges() == old_g.spec_hyperedges()
    &&& has_id(new_g.spec_nodes(), id)
    &&& fresh_node_fields(
        node_of(new_g.spec_nodes(), id),
        id,
        content,
        summary,
        tags,
        source_type,
        spec_infer_cluster(source_type, tags@, explicit),
        cell_id,
        canon_level,
        new_g.spec_clock(),
    )
    &&& forall|x: Seq<char>|
        x != id ==> {
            &&& has_id(new_g.spec_nodes(), x) == has_id(old_g.spec_nodes(), x)
            &&& has_id(old_g.spec_nodes(), x) ==> node_of(new_g.spec_nodes(), x) == node_of(old_g.spec_nodes(), x)
        }
}

/// `new_g` is `old_g` after [`MemoryGraphNexus::enforce_capacity`] with `max_nodes`
/// evicted `removed` nodes: as many as needed to get down to `max_nodes`, but never a
/// canon node; the survivors are unchanged; every evicted node is less valuable than
/// every surviving ephemeral node; the edges of evicted nodes are gone.
pub open spec fn capacity_enforced(old_g: MemoryGraphNexus, new_g: MemoryGraphNexus, max_nodes: usize, removed: nat) -> bool {
    let o = old_g.spec_nodes();
    let f = new_g.spec_nodes();
    &&& new_g.wf()
    &&& removed == eviction_count(o, max_nodes)
    &&& removed == o.len() - f.len()
    &&& removed == 0 ==> f == o
    // what survives is unchanged
    &&& forall|x: Seq<char>| has_id(f, x) ==> has_id(o, x) && node_of(f, x) == node_of(o, x)
    // canon is never evicted
    &&& forall|i: int|
        0 <= i < o.len() && !has_id(f, #[trigger] o[i].id@) ==> o[i].is_ephemeral && !o[i].canon_level.spec_is_canon()
    // every evicted node is less valuable than every surviving ephemeral node
    &&& forall|i: int, j: int|
        0 <= i < o.len() && 0 <= j < o.len() && !has_id(f, #[trigger] o[i].id@) && has_id(f, #[trigger] o[j].id@)
            && o[j].is_ephemeral ==> less_valuable(o[i], o[j])
    &&& new_g.spec_edges() == edges_among(old_g.spec_edges(), f)
    &&& new_g.spec_clock() == old_g.spec_clock()
    &&& new_g.spec_id_seed() == old_g.spec_id_seed()
    &&& new_g.spec_topology() == old_g.spec_topology()
    &&& new_g.spec_hyperedges() == old_g.spec_hyperedges()
}

/// Whether the nodes are in strictly increasing id order and each respects its
/// provenance ceiling and canon/ephemeral agreement.
fn nodes_check(nodes: &Vec<MemoryNode>) -> (r: bool)
    ensures
        r == (nodes_sorted(nodes@) && forall|i: int| 0 <= i < nodes@.len() ==> node_valid(#[trigger] nodes@[i])),
{
    let mut i: usize = 0;
    while i < nodes.len()
        invariant
            i <= nodes@.len(),
            nodes_sorted(nodes@.subrange(0, i as int)),
            forall|j: int| 0 <= j < i ==> node_valid(#[trigger] nodes@[j]),
        decreases nodes@.len() - i,
    {
        let n = &nodes[i];
        if !(n.importance <= n.source_type.max_importance_cap() && n.is_ephemeral == !n.canon_level.is_canon()) {
            assert(!node_valid(nodes@[i as int]));
            return false;
        }
        if i > 0 {
            match compare_keys(nodes[i - 1].id.as_str(), n.id.as_str()) {
                KeyOrder::Less => {},
                _ => {
                    assert(!id_lt(nodes@[i - 1].id@, nodes@[i as int].id@));
                    return false;
                },
            }
        }
        proof {
            let pre = nodes@.subrange(0, i as int);
            let post = nodes@.subrange(0, i + 1);
            assert forall|a: int, b: int| 0 <= a < b < post.len() implies id_lt(#[trigger] post[a].id@, #[trigger] post[b].id@) by {
                if b < i {
                    assert(pre[a] == post[a] && pre[b] == post[b]);
                } else if a < i - 1 {
                    assert(pre[a] == post[a] && pre[i - 1] == post[i - 1]);
                    lemma_id_lt_transitive(post[a].id@, post[i - 1].id@, post[b].id@);
                }
            }
        }
        i = i + 1;
    }
    proof {
        assert(nodes@.subrange(0, nodes@.len() as int) =~= nodes@);
    }
    true
}

impl MemoryGraphNexus {
    /// Whether `edges` satisfy [`edges_valid`] over this graph's nodes: every edge joins two
    /// distinct stored nodes and no pair is joined twice. Runs in time proportional to the
    /// edges times the largest degree.
    fn edges_check(&self, edges: &Vec<MemoryEdge>) -> (r: bool)
        requires
            nodes_sorted(self.nodes@),
        ensures
            r == edges_valid(self.nodes@, edge_views(edges@)),
    {
        let n = self.nodes.len();
        let ghost nodes = self.nodes@;
        let ghost ev = edge_views(edges@);
        let mut adj: Vec<Vec<usize>> = Vec::new();
        let mut i: usize = 0;
        while i < n
            invariant
                i <= n,
                adj@.len() == i,
                forall|x: int| 0 <= x < i ==> (#[trigger] adj@[x])@ == Seq::<usize>::empty(),
            decreases n - i,
        {
            adj.push(Vec::new());
            i = i + 1;
        }
        proof {
            assert(ev.subrange(0, 0) =~= Seq::<EdgeView>::empty());
        }
        let mut k: usize = 0;
        while k < edges.len()
            invariant
                nodes_sorted(nodes),
                nodes == self.nodes@,
                ev == edge_views(edges@),
                n == nodes.len(),
                k <= ev.len(),
                adj@.len() == n,
                edges_valid(nodes, ev.subrange(0, k as int)),
                forall|x: int, y: usize|
                    0 <= x < n && y < n ==> ((#[trigger] adj@[x]@.contains(y)) <==> linked(ev.subrange(0, k as int), nodes[x].id@, nodes[y as int].id@)),
                forall|x: int, q: int| 0 <= x < n && 0 <= q < adj@[x]@.len() ==> #[trigger] adj@[x]@[q] < n,
            decreases ev.len() - k,
        {
            let e = &edges[k];
            assert(ev[k as int] == e@);
            let a = match self.find_index(e.source_id.as_str()) {
                Ok(a) => a,
                Err(_) => {
                    assert(!has_id(nodes, ev[k as int].source_id));
                    return false;
                },
            };
            let b = match self.find_index(e.target_id.as_str()) {
                Ok(b) => b,
                Err(_) => {
                    assert(has_id(nodes, ev[k as int].source_id));
                    assert(!has_id(nodes, ev[k as int].target_id));
                    return false;
                },
            };
            if a == b {
                assert(ev[k as int].source_id == ev[k as int].target_id);
                return false;
            }
            let mut q: usize = 0;
            while q < adj[a].len()
                invariant
                    a < n,
                    b < n,
                    adj@.len() == n,
                    nodes_sorted(nodes),
                    nodes == self.nodes@,
                    ev == edge_views(edges@),
                    n == nodes.len(),
                    k < ev.len(),
                    nodes[a as int].id@ == ev[k as int].source_id,
                    nodes[b as int].id@ == ev[k as int].target_id,
                    forall|x: int, y: usize|
                        0 <= x < n && y < n ==> ((#[trigger] adj@[x]@.contains(y)) <==> linked(ev.subrange(0, k as int), nodes[x].id@, nodes[y as int].id@)),
                    forall|p: int| 0 <= p < q ==> adj@[a as int]@[p] != b,
                    q <= adj@[a as int]@.len(),
                decreases adj@[a as int]@.len() - q,
            {
                if adj[a][q] == b {
                    proof {
                        assert(adj@[a as int]@.contains(b));
                        let pre = ev.subrange(0, k as int);
                        let l = choose|l: int| 0 <= l < pre.len() && joins(pre[l], nodes[a as int].id@, nodes[b as int].id@);
                        assert(pre[l] == ev[l]);
                        assert(joins(ev[k as int], ev[l].source_id, ev[l].target_id));
                    }
                    return false;
                }
                q = q + 1;
            }
            proof {
                assert(!adj@[a as int]@.contains(b));
            }
            let ghost before = adj@;
            adj[a].push(b);
            adj[b].push(a);
            proof {
                let pre = ev.subrange(0, k as int);
                let post = ev.subrange(0, k + 1);
                assert(post =~= pre.push(ev[k as int]));
                let sa = nodes[a as int].id@;
                let sb = nodes[b as int].id@;
                assert(!linked(pre, sa, sb));
                assert forall|x: int, y: usize|
                    0 <= x < n && y < n implies ((#[trigger] adj@[x]@.contains(y)) <==> linked(post, nodes[x].id@, nodes[y as int].id@)) by {
                    let X = nodes[x].id@;
                    let Y = nodes[y as int].id@;
                    if linked(pre, X, Y) {
                        let l = choose|l: int| 0 <= l < pre.len() && joins(pre[l], X, Y);
                        assert(post[l] == pre[l]);
                    }
                    if joins(ev[k as int], X, Y) {
                        assert(post[k as int] == ev[k as int]);
                        if X == sa {
                            lemma_ids_unique(nodes, x, a as int);
                            lemma_ids_unique(nodes, y as int, b as int);
                        } else {
                            lemma_ids_unique(nodes, x, b as int);
                            lemma_ids_unique(nodes, y as int, a as int);
                        }
                    }
                    if linked(post, X, Y) {
                        let l = choose|l: int| 0 <= l < post.len() && joins(post[l], X, Y);
                        if l < k {
                            assert(pre[l] == post[l]);
                        }
                    }
                    if x == a as int {
                        assert(adj@[x]@ == before[x]@.push(b));
                        if y == b {
                            assert(adj@[x]@[before[x]@.len() as int] == b);
                        } else {
                            if adj@[x]@.contains(y) {
                                let q0 = choose|q0: int| 0 <= q0 < adj@[x]@.len() && adj@[x]@[q0] == y;
                                assert(before[x]@[q0] == y);
                            }
                            if before[x]@.contains(y) {
                                let q0 = choose|q0: int| 0 <= q0 < before[x]@.len() && before[x]@[q0] == y;
                                assert(adj@[x]@[q0] == y);
                            }
                        }
                    } else if x == b as int {
                        assert(adj@[x]@ == before[x]@.push(a));
                        if y == a {
                            assert(adj@[x]@[before[x]@.len() as int] == a);
                        } else {
                            if adj@[x]@.contains(y) {
                                let q0 = choose|q0: int| 0 <= q0 < adj@[x]@.len() && adj@[x]@[q0] == y;
                                assert(before[x]@[q0] == y);
                            }
                            if before[x]@.contains(y) {
                                let q0 = choose|q0: int| 0 <= q0 < before[x]@.len() && before[x]@[q0] == y;
                                assert(adj@[x]@[q0] == y);
                            }
                        }
                    } else {
                        assert(adj@[x] == before[x]);
                    }
                }
                assert forall|x: int, q0: int| 0 <= x < n && 0 <= q0 < adj@[x]@.len() implies #[trigger] adj@[x]@[q0] < n by {
                    if x == a as int || x == b as int {
                        if q0 < before[x]@.len() {
                            assert(adj@[x]@[q0] == before[x]@[q0]);
                        }
                    } else {
                        assert(adj@[x] == before[x]);
                    }
                }
                assert(has_id(nodes, ev[k as int].source_id));
                assert(has_id(nodes, ev[k as int].target_id));
                assert forall|l: int, m: int| 0 <= l < m < post.len() implies !joins(#[trigger] post[m], #[trigger] post[l].source_id, post[l].target_id) by {
                    if m < k {
                        assert(pre[l] == post[l] && pre[m] == post[m]);
                    } else {
                        assert(pre[l] == post[l]);
                        if joins(post[m], post[l].source_id, post[l].target_id) {
                            assert(joins(pre[l], sa, sb));
                        }
                    }
                }
                assert forall|l: int| 0 <= l < post.len() implies {
                    &&& has_id(nodes, #[trigger] post[l].source_id)
                    &&& has_id(nodes, post[l].target_id)
                    &&& post[l].source_id != post[l].target_id
                } by {
                    if l < k {
                        assert(pre[l] == post[l]);
                    }
                }
            }
            k = k + 1;
        }
        proof {
            assert(ev.subrange(0, ev.len() as int) =~= ev);
        }
        true
    }

    /// A graph rebuilt from its stored parts (as a snapshot holds them), or `None` when the
    /// parts break the graph invariant: nodes out of id order or duplicated, a node above
    /// its provenance ceiling or with canon and ephemeral in disagreement, an edge to a
    /// missing node or to itself, or a pair joined twice.
    pub fn from_parts(
        nodes: Vec<MemoryNode>,
        edges: Vec<MemoryEdge>,
        hyperedges: Vec<HyperEdge>,
        topology: Topology24Cell,
        clock: u64,
        id_seed: u64,
    ) -> (r: Option<Self>)
        ensures
            r is Some <==> graph_valid(nodes@, edge_views(edges@)),
            r matches Some(g) ==> {
                &&& g.wf()
                &&& g.spec_nodes() == nodes@
                &&& g.spec_edges() == edge_views(edges@)
                &&& g.spec_clock() == clock
                &&& g.spec_id_seed() == id_seed
                &&& g.spec_topology() == topology.spec_cells()
                &&& g.spec_hyperedges() == hyperedges@
            },
    {
        if !nodes_check(&nodes) {
            return None;
        }
        let mut g = MemoryGraphNexus { nodes, edges: Vec::new(), hyperedges, topology, clock, id_seed };
        if !g.edges_check(&edges) {
            return None;
        }
        g.edges = edges;
        Some(g)
    }

    /// Whether this graph satisfies its invariant (always true of graphs built by this
    /// library; a check for values that crossed a boundary).
    pub fn is_well_formed(&self) -> (r: bool)
        ensures
            r == self.wf(),
    {
        nodes_check(&self.nodes) && self.edges_check(&self.edges)
    }

    /// The logical clock (the tick of the last access or creation).
    pub fn clock(&self) -> (r: u64)
        ensures
            r == self.spec_clock(),
    {
        self.clock
    }

    /// The identifier generator's state.
    pub fn id_seed(&self) -> (r: u64)
        ensures
            r == self.spec_id_seed(),
    {
        self.id_seed
    }
}

/// `0.25f32` as bits: candidates whose cosine is below this floor are not recalled.
pub const RELEVANCE_FLOOR_BITS: u32 = 0x3e80_0000;

/// A search candidate may be recalled: its cosine clears the relevance floor, it names a
/// stored node, and that node is not the model's quarantined self-description.
pub open spec fn recall_admissible(nodes: Seq<MemoryNode>, c: VectorSearchResult) -> bool {
    &&& spec_ge(c.score, RELEVANCE_FLOOR_BITS)
    &&& has_id(nodes, c.node_id@)
    &&& !node_of(nodes, c.node_id@).source_type.spec_is_self_description()
}

/// The candidates that may be recalled, in their order.
pub open spec fn spec_recall_candidates(nodes: Seq<MemoryNode>, candidates: Seq<VectorSearchResult>) -> Seq<VectorSearchResult> {
    mask_filter(candidates, candidates.map_values(|c: VectorSearchResult| recall_admissible(nodes, c)))
}

impl MemoryGraphNexus {
    /// The relevance floor and the quarantine of recall: keeps, in order, the search
    /// candidates that clear the floor and name a stored node that is not the model's
    /// self-description. Quarantined facts are excluded, not merely ranked low.
    pub fn recall_candidates(&self, candidates: Vec<VectorSearchResult>) -> (r: Vec<VectorSearchResult>)
        requires
            self.wf(),
        ensures
            r@ == spec_recall_candidates(self.spec_nodes(), candidates@),
    {
        let mut keep: Vec<bool> = Vec::new();
        let mut i: usize = 0;
        while i < candidates.len()
            invariant
                self.wf(),
                i <= candidates@.len(),
                keep@ == candidates@.subrange(0, i as int).map_values(|c: VectorSearchResult| recall_admissible(self.spec_nodes(), c)),
            decreases candidates@.len() - i,
        {
            let c = &candidates[i];
            let ok = if ge(c.score, RELEVANCE_FLOOR_BITS) {
                match self.get_node(c.node_id.as_str()) {
                    Some(n) => !n.source_type.is_self_description(),
                    None => false,
                }
            } else {
                false
            };
            keep.push(ok);
            proof {
                assert(keep@ =~= candidates@.subrange(0, i + 1).map_values(|c: VectorSearchResult| recall_admissible(self.spec_nodes(), c)));
            }
            i = i + 1;
        }
        proof {
            assert(candidates@.subrange(0, candidates@.len() as int) =~= candidates@);
        }
        filter_by_mask(candidates, &keep)
    }
}

/// Recall never surfaces a quarantined fact or one below the relevance floor: every
/// candidate kept by [`MemoryGraphNexus::recall_candidates`] clears the floor and names a
/// stored node whose provenance is not the model's self-description.
pub proof fn lemma_recall_excludes_quarantined(nodes: Seq<MemoryNode>, candidates: Seq<VectorSearchResult>, j: int)
    requires
        0 <= j < spec_recall_candidates(nodes, candidates).len(),
    ensures
        ({
            let c = spec_recall_candidates(nodes, candidates)[j];
            &&& spec_ge(c.score, RELEVANCE_FLOOR_BITS)
            &&& has_id(nodes, c.node_id@)
            &&& !node_of(nodes, c.node_id@).source_type.spec_is_self_description()
            &&& candidates.contains(c)
        }),
{
    let keep = candidates.map_values(|c: VectorSearchResult| recall_admissible(nodes, c));
    let idx = lemma_mask_filter_indices(candidates, keep);
    let k = idx[j];
    assert(keep[k]);
    assert(candidates[k] == spec_recall_candidates(nodes, candidates)[j]);
}

impl Default for MemoryGraphNexus {
    fn default() -> (g: Self)
        ensures
            g.wf(),
            g.spec_nodes() == Seq::<MemoryNode>::empty(),
            g.spec_edges() == Seq::<EdgeView>::empty(),
            g.spec_clock() == 0,
            g.spec_id_seed() == INITIAL_ID_SEED,
            is_default_ontology(g.spec_topology()),
            g.spec_hyperedges() == Seq::<HyperEdge>::empty(),
    {
        Self::new()
    }
}

} // verus!
