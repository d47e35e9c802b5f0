use astrum_memory::affect_overlay::AffectState;
use astrum_memory::canon::CanonLevel;
use astrum_memory::entities::{entities_of, entities_of_classified};
use astrum_memory::graph_nexus::{MemoryGraphNexus, MemoryNode};
use astrum_memory::ids::splitmix_next;
use astrum_memory::linking::{all_pairs, lsh_candidate_pairs, sign_hash};
use astrum_memory::provenance::SourceType;
use astrum_memory::vector_index::{SimpleVectorIndex, VectorSearchResult};

fn bits(v: &[f32]) -> Vec<u32> {
    v.iter().map(|x| x.to_bits()).collect()
}

fn cosine(a: &[f32], b: &[f32]) -> f32 {
    if a.len() != b.len() || a.is_empty() {
        return 0.0;
    }
    let (mut dot, mut na, mut nb) = (0.0f32, 0.0f32, 0.0f32);
    for i in 0..a.len() {
        dot += a[i] * b[i];
        na += a[i] * a[i];
        nb += b[i] * b[i];
    }
    if na <= 0.0 || nb <= 0.0 {
        return 0.0;
    }
    (dot / (na.sqrt() * nb.sqrt())).clamp(-1.0, 1.0)
}

fn embedding(idx: &SimpleVectorIndex, k: usize) -> Vec<f32> {
    idx.entries()[k].1.iter().map(|b| f32::from_bits(*b)).collect()
}

fn search(idx: &SimpleVectorIndex, query: &[f32], top_k: usize) -> Vec<VectorSearchResult> {
    let scores: Vec<u32> = (0..idx.len()).map(|k| cosine(query, &embedding(idx, k)).to_bits()).collect();
    idx.search_with_scores(query.len(), &scores, top_k)
}

fn node<'a>(g: &'a MemoryGraphNexus, id: &str) -> &'a MemoryNode {
    g.get_node(id).unwrap()
}

fn mk(n: &mut MemoryGraphNexus, t: &str) -> String {
    n.create_node(t.into(), t.into(), vec![], SourceType::UserUtterance, 2, None, CanonLevel::NotCanon)
}

#[test]
fn test_node_creation_and_cluster_routing() {
    let mut nexus = MemoryGraphNexus::new();

    // Self description should go to system
    let id_sys = nexus.create_node(
        "I am a hypergraph bot".to_string(),
        "self desc".to_string(),
        vec!["architecture".to_string()],
        SourceType::LlmSelfDescription,
        11,
        None,
        CanonLevel::NotCanon,
    );

    let sys_node = node(&nexus, &id_sys);
    assert_eq!(sys_node.cluster_id, "system");

    // User utterance should go to shared
    let id_user = nexus.create_node(
        "User prefers concise answers".to_string(),
        "user preference".to_string(),
        vec!["user_profile".to_string()],
        SourceType::UserUtterance,
        2,
        None,
        CanonLevel::L2Foundational,
    );

    let user_node = node(&nexus, &id_user);
    assert_eq!(user_node.cluster_id, "shared");
    assert_eq!(user_node.canon_level, CanonLevel::L2Foundational);
}

#[test]
fn test_edges_and_traversal() {
    let mut nexus = MemoryGraphNexus::new();
    let a = mk(&mut nexus, "A");
    let b = mk(&mut nexus, "B");
    let c = mk(&mut nexus, "C");

    // Chain A—B—C. C is NOT directly linked to A.
    nexus.add_edge(&a, &b, "relatedMeaning", 0.9f32.to_bits());
    nexus.add_edge(&b, &c, "relatedMeaning", 0.9f32.to_bits());
    // Dedup + missing-node guards.
    nexus.add_edge(&a, &b, "relatedMeaning", 0.9f32.to_bits()); // duplicate ignored
    nexus.add_edge(&a, "nonexistent", "x", 1.0f32.to_bits()); // missing target ignored
    assert_eq!(nexus.edges().len(), 2);

    // Neighbors are undirected.
    assert_eq!(nexus.neighbors(&b).len(), 2);
    assert_eq!(nexus.neighbors(&a), vec![b.clone()]);

    // 1 hop from A reaches B but not C; 2 hops reaches C (the multi-hop payoff).
    let one = nexus.expand(&[a.clone()], 1);
    assert!(one.contains(&b) && !one.contains(&c));
    let two = nexus.expand(&[a.clone()], 2);
    assert!(two.contains(&c));
}

/// Multi-table LSH as the engine runs it: planes from the deterministic generator, one
/// sign-bit bucket per vector and table, candidate pairs, then the cosine threshold.
fn link_lsh(g: &mut MemoryGraphNexus, idx: &SimpleVectorIndex, threshold: f32, n_planes: usize, n_tables: usize) -> usize {
    let n = idx.len();
    if n == 0 {
        return 0;
    }
    let dim = embedding(idx, 0).len();
    let mut seed = 0x1234_5678_9ABC_DEF0u64;
    let mut rnd = || ((splitmix_next(&mut seed) >> 40) as f32 / (1u64 << 24) as f32) * 2.0 - 1.0;
    let mut tables: Vec<Vec<u64>> = Vec::new();
    for _ in 0..n_tables.max(1) {
        let planes: Vec<Vec<f32>> = (0..n_planes.min(63)).map(|_| (0..dim).map(|_| rnd()).collect()).collect();
        let mut hashes = Vec::new();
        for k in 0..n {
            let v = embedding(idx, k);
            let dots: Vec<u32> = planes
                .iter()
                .map(|p| v.iter().zip(p).map(|(a, b)| a * b).sum::<f32>().to_bits())
                .collect();
            hashes.push(sign_hash(&dots));
        }
        tables.push(hashes);
    }
    let pairs = lsh_candidate_pairs(&tables, n);
    let scores: Vec<u32> = pairs.iter().map(|&(i, j)| cosine(&embedding(idx, i), &embedding(idx, j)).to_bits()).collect();
    g.link_scored_pairs(idx, &pairs, &scores, threshold.to_bits())
}

#[test]
fn test_lsh_linking_finds_near_duplicates() {
    let mut g = MemoryGraphNexus::new();
    let mut idx = SimpleVectorIndex::new(4);
    let mkx = |g: &mut MemoryGraphNexus| {
        g.create_node("x".into(), String::new(), vec![], SourceType::UserUtterance, 2, None, CanonLevel::NotCanon)
    };
    let a = mkx(&mut g);
    let b = mkx(&mut g);
    let c = mkx(&mut g);
    idx.insert(a.clone(), bits(&[1.0, 0.0, 0.0, 0.0])).unwrap();
    idx.insert(b.clone(), bits(&[0.98, 0.02, 0.0, 0.0])).unwrap(); // near-duplicate of a
    idx.insert(c.clone(), bits(&[0.0, 0.0, 1.0, 0.0])).unwrap(); // orthogonal

    link_lsh(&mut g, &idx, 0.9, 12, 1);
    assert!(g.neighbors(&a).contains(&b), "near-duplicate should be linked");
    assert!(!g.neighbors(&a).contains(&c), "orthogonal vector should not link");
}

#[test]
fn exact_semantic_linking_uses_every_pair() {
    let mut g = MemoryGraphNexus::new();
    let mut idx = SimpleVectorIndex::new(2);
    let a = mk(&mut g, "a");
    let b = mk(&mut g, "b");
    let c = mk(&mut g, "c");
    idx.insert(a.clone(), bits(&[1.0, 0.0])).unwrap();
    idx.insert(b.clone(), bits(&[1.0, 0.1])).unwrap();
    idx.insert(c.clone(), bits(&[0.0, 1.0])).unwrap();
    let pairs = all_pairs(idx.len());
    assert_eq!(pairs, vec![(0, 1), (0, 2), (1, 2)]);
    let scores: Vec<u32> = pairs.iter().map(|&(i, j)| cosine(&embedding(&idx, i), &embedding(&idx, j)).to_bits()).collect();
    let created = g.link_scored_pairs(&idx, &pairs, &scores, 0.9f32.to_bits());
    assert_eq!(created, 1);
    assert_eq!(g.edges()[0].relation_type, "relatedMeaning");
    assert_eq!(g.edges()[0].weight, scores[0]);
    assert_eq!(g.neighbors(&a), vec![b.clone()]);
    // Running it again adds nothing: the pair is already linked.
    assert_eq!(g.link_scored_pairs(&idx, &pairs, &scores, 0.9f32.to_bits()), 0);
}

#[test]
fn test_ricci_prune_keeps_bridges_drops_redundant() {
    let mut g = MemoryGraphNexus::new();
    // Two triangles A-B-C and D-E-F, joined by a single bridge C-D.
    let (a, b, c) = (mk(&mut g, "A"), mk(&mut g, "B"), mk(&mut g, "C"));
    let (d, e, f) = (mk(&mut g, "D"), mk(&mut g, "E"), mk(&mut g, "F"));
    for (x, y) in [(&a, &b), (&b, &c), (&c, &a), (&d, &e), (&e, &f), (&f, &d), (&c, &d)] {
        g.add_edge(x, y, "relatedMeaning", 1.0f32.to_bits());
    }
    assert_eq!(g.edges().len(), 7);

    // Prune redundant (high-F) triangle edges; the bridge C-D has negative F → kept.
    let pruned = g.prune_redundant_edges(2);
    assert!(pruned >= 1, "at least one redundant triangle edge should be pruned");
    // The bridge survives (it is the only path between the two clusters).
    assert!(g.neighbors(&c).contains(&d), "bridge C-D must be kept");
    // No node was isolated.
    for id in [&a, &b, &c, &d, &e, &f] {
        assert!(!g.neighbors(id).is_empty(), "no node should be isolated by pruning");
    }
}

#[test]
fn pruning_with_a_high_floor_keeps_everything() {
    let mut g = MemoryGraphNexus::new();
    let (a, b, c) = (mk(&mut g, "A"), mk(&mut g, "B"), mk(&mut g, "C"));
    g.add_edge(&a, &b, "r", 0);
    g.add_edge(&b, &c, "r", 0);
    g.add_edge(&c, &a, "r", 0);
    // Every triangle edge has F = 4 - 2 - 2 + 3 = 3.
    assert_eq!(g.prune_redundant_edges(3), 0);
    assert_eq!(g.prune_redundant_edges(i128::MAX), 0);
    // With a floor below 3 one edge goes; after that every node has degree 1 or the
    // remaining edges lost their triangle, so nothing else can go.
    assert_eq!(g.prune_redundant_edges(2), 1);
    assert_eq!(g.edges().len(), 2);
    for id in [&a, &b, &c] {
        assert!(!g.neighbors(id).is_empty());
    }
}

#[test]
fn test_entity_linking_ignores_frequent_subject() {
    let mut nexus = MemoryGraphNexus::new();
    // "Alex" appears in 3 nodes (frequent → ignored). "Meridian" (freq 2) links the pair.
    let a = mk(&mut nexus, "Alex works at Meridian");
    let b = mk(&mut nexus, "Meridian builds robots");
    let c = mk(&mut nexus, "Alex likes tea");
    let _d = mk(&mut nexus, "Alex plays guitar");

    // max_entity_freq = 2: "Alex" (freq 3) is ignored, "Meridian" (freq 2) links a–b.
    let edges = nexus.link_by_entities(2, 1);
    assert_eq!(edges, 1, "only the Meridian pair should link");
    assert!(nexus.neighbors(&a).contains(&b));
    assert!(!nexus.neighbors(&a).contains(&c), "Alex is too frequent to link a–c");
}

#[test]
fn entity_linking_weight_counts_shared_entities() {
    let mut nexus = MemoryGraphNexus::new();
    let a = mk(&mut nexus, "Meridian and Tesla, friends");
    let b = mk(&mut nexus, "Tesla's deal with Meridian.");
    let _c = mk(&mut nexus, "no names here at all");
    assert_eq!(nexus.link_by_entities(5, 2), 1);
    assert_eq!(nexus.edges()[0].relation_type, "sharedEntity");
    assert_eq!(nexus.edges()[0].weight, 2.0f32.to_bits());
    assert!(nexus.neighbors(&a).contains(&b));
}

#[test]
fn test_associative_recall_seed_set() {
    let mut nexus = MemoryGraphNexus::new();
    let seed = mk(&mut nexus, "Alex works at Meridian");
    let target = mk(&mut nexus, "Meridian builds robots");
    let noise = mk(&mut nexus, "unrelated fact");

    // Seed and target are linked; target is embedding-distant from the query vector.
    nexus.add_edge(&seed, &target, "relatedMeaning", 0.9f32.to_bits());

    let mut idx = SimpleVectorIndex::new(2);
    idx.insert(seed.clone(), bits(&[1.0, 0.0])).unwrap(); // close to query
    idx.insert(target.clone(), bits(&[0.0, 1.0])).unwrap(); // far from query
    idx.insert(noise.clone(), bits(&[-1.0, 0.0])).unwrap();

    let query = [1.0f32, 0.0];
    // Flat top-1 would only return the seed; associative recall reaches the target via the edge.
    let seeds: Vec<String> = search(&idx, &query, 2).into_iter().map(|r| r.node_id).collect();
    let recalled = nexus.associative_recall(&seeds, 1);
    assert!(recalled.contains(&seed));
    assert!(recalled.contains(&target), "seed-set recall must reach the linked target");
}

#[test]
fn recall_puts_seeds_first_and_widens_with_hops() {
    let mut g = MemoryGraphNexus::new();
    let a = mk(&mut g, "a");
    let b = mk(&mut g, "b");
    let c = mk(&mut g, "c");
    g.add_edge(&a, &b, "r", 0);
    g.add_edge(&b, &c, "r", 0);
    let seeds = vec![c.clone(), "missing".to_string()];
    assert_eq!(g.associative_recall(&seeds, 0), vec![c.clone()]);
    let one = g.associative_recall(&seeds, 1);
    assert_eq!(one[0], c);
    assert_eq!(one.len(), 2);
    let deep = g.associative_recall(&seeds, 5);
    assert_eq!(deep[0], c);
    assert_eq!(deep.len(), 3);
    // expand is in id order and contains the shallower result.
    let e = g.expand(&seeds, 5);
    let mut sorted = e.clone();
    sorted.sort();
    assert_eq!(e, sorted);
    for x in g.expand(&seeds, 1) {
        assert!(e.contains(&x));
    }
}

#[test]
fn test_canon_survives_capacity_pressure() {
    let mut nexus = MemoryGraphNexus::new();
    // 3 canon facts (immortal) created first, then never touched again (oldest = LRU targets).
    let mut canon_ids = Vec::new();
    for i in 0..3 {
        canon_ids.push(nexus.create_node(
            format!("canon fact {i}"),
            String::new(),
            vec![],
            SourceType::UserUtterance,
            2,
            None,
            CanonLevel::L2Foundational,
        ));
    }
    // 20 ephemeral noise nodes.
    for i in 0..20 {
        nexus.create_node(format!("noise {i}"), String::new(), vec![], SourceType::LlmGeneration, 5, None, CanonLevel::NotCanon);
    }
    assert_eq!(nexus.len(), 23);
    assert_eq!(nexus.canon_count(), 3);

    // Squeeze hard: keep only 5 nodes. A plain LRU would evict the old canon facts.
    let evicted = nexus.enforce_capacity(5);
    assert_eq!(evicted, 18); // 23 -> 5
    assert_eq!(nexus.len(), 5);
    // All canon survived despite being the oldest nodes.
    assert_eq!(nexus.canon_count(), 3);
    for id in &canon_ids {
        assert!(nexus.contains_node(id), "canon fact was wrongly evicted");
    }
}

#[test]
fn capacity_keeps_all_canon_even_above_the_limit() {
    let mut g = MemoryGraphNexus::new();
    for i in 0..4 {
        g.create_node(format!("c{i}"), String::new(), vec![], SourceType::UserUtterance, 1, None, CanonLevel::L1Project);
    }
    let e = g.create_node("e".into(), String::new(), vec![], SourceType::UserUtterance, 1, None, CanonLevel::NotCanon);
    assert_eq!(g.enforce_capacity(2), 1);
    assert_eq!(g.len(), 4);
    assert!(!g.contains_node(&e));
    assert_eq!(g.enforce_capacity(10), 0);
}

#[test]
fn eviction_removes_the_edges_of_evicted_nodes() {
    let mut g = MemoryGraphNexus::new();
    let a = mk(&mut g, "a");
    let b = mk(&mut g, "b");
    let c = mk(&mut g, "c");
    g.add_edge(&a, &b, "r", 0);
    g.add_edge(&b, &c, "r", 0);
    // a is the oldest and least accessed: it goes first.
    g.record_access(&b);
    g.record_access(&c);
    assert_eq!(g.enforce_capacity(2), 1);
    assert!(!g.contains_node(&a));
    assert_eq!(g.edges().len(), 1);
    assert_eq!(g.neighbors(&b), vec![c.clone()]);
}

#[test]
fn test_human_feedback_respects_the_provenance_ceiling() {
    let mut nexus = MemoryGraphNexus::new();
    let gen = nexus.create_node(
        "model said something plausible".to_string(),
        String::new(),
        vec![],
        SourceType::LlmGeneration,
        5,
        None,
        CanonLevel::NotCanon,
    );
    let selfd = nexus.create_node(
        "i am an assistant with a memory".to_string(),
        String::new(),
        vec![],
        SourceType::LlmSelfDescription,
        11,
        None,
        CanonLevel::NotCanon,
    );

    // Applause cannot lift a node past what its provenance allows: 0.70 for generation,
    // 0.40 for self-description, no matter how many times a human confirms it.
    for _ in 0..20 {
        assert!(nexus.record_human_feedback(&gen, true));
        assert!(nexus.record_human_feedback(&selfd, true));
    }
    assert_eq!(node(&nexus, &gen).importance, 0.70f32.to_bits());
    assert_eq!(node(&nexus, &selfd).importance, 0.40f32.to_bits());
    assert_eq!(node(&nexus, &gen).confirmations, 20);

    // Rejection bottoms out at zero rather than going negative.
    for _ in 0..20 {
        assert!(nexus.record_human_feedback(&gen, false));
    }
    assert_eq!(node(&nexus, &gen).importance, 0.0f32.to_bits());
    assert_eq!(node(&nexus, &gen).rejections, 20);

    assert!(!nexus.record_human_feedback("no-such-node", true));
}

#[test]
fn rejection_outweighs_confirmation() {
    let mut g = MemoryGraphNexus::new();
    let id = mk(&mut g, "fact");
    assert_eq!(node(&g, &id).importance, 0.45f32.to_bits());
    g.record_human_feedback(&id, true);
    let raised = 0.45f32 + 0.15f32;
    assert_eq!(node(&g, &id).importance, raised.to_bits());
    g.record_human_feedback(&id, false);
    let lowered = raised - 0.20f32;
    assert_eq!(node(&g, &id).importance, lowered.to_bits());
    // single precision leaves 0.40000004 here, just above a self-description's 0.40 ceiling
    assert!(f32::from_bits(node(&g, &id).importance) > 0.40f32);
    assert!(f32::from_bits(node(&g, &id).importance) < 0.45f32);
}

#[test]
fn test_feedback_moves_retention_not_ranking() {
    let mut nexus = MemoryGraphNexus::new();
    let mut idx = SimpleVectorIndex::new(3);
    let mut ids = Vec::new();
    for i in 0..3 {
        let id = nexus.create_node(format!("fact {i}"), String::new(), vec![], SourceType::UserUtterance, 2, None, CanonLevel::NotCanon);
        idx.insert(id.clone(), bits(&[1.0 - i as f32 * 0.1, i as f32 * 0.1, 0.0])).unwrap();
        ids.push(id);
    }

    let query = [1.0f32, 0.0, 0.0];
    let before: Vec<String> = search(&idx, &query, 3).into_iter().map(|r| r.node_id).collect();

    // Bury the top hit under rejections and lift the last one with confirmations.
    for _ in 0..5 {
        nexus.record_human_feedback(&ids[0], false);
        nexus.record_human_feedback(&ids[2], true);
    }

    // RANKING: identical. Feedback is not allowed anywhere near relevance.
    let after: Vec<String> = search(&idx, &query, 3).into_iter().map(|r| r.node_id).collect();
    assert_eq!(before, after, "human feedback must not reorder search results");

    // RETENTION: under pressure the rejected fact goes first and the confirmed one stays,
    // even though the rejected one is the closest match to the query.
    nexus.enforce_capacity(1);
    assert!(!nexus.contains_node(&ids[0]), "rejected node should be evicted first");
    assert!(nexus.contains_node(&ids[2]), "confirmed node should survive");
}

#[test]
fn test_promotion_to_canon_is_explicit_and_quarantine_holds() {
    let mut nexus = MemoryGraphNexus::new();
    let fact = nexus.create_node(
        "the user is allergic to penicillin".to_string(),
        String::new(),
        vec![],
        SourceType::UserUtterance,
        2,
        None,
        CanonLevel::NotCanon,
    );
    let selfd = nexus.create_node(
        "i keep notes about the user".to_string(),
        String::new(),
        vec![],
        SourceType::LlmSelfDescription,
        11,
        None,
        CanonLevel::NotCanon,
    );
    for _ in 0..3 {
        nexus.record_human_feedback(&fact, true);
        nexus.record_human_feedback(&selfd, true);
    }

    // Confirmations alone change nothing — promotion is a separate, deliberate act.
    assert_eq!(nexus.canon_count(), 0);

    assert_eq!(nexus.promote_confirmed_to_canon(3, CanonLevel::L1Project), 1);
    assert_eq!(nexus.canon_count(), 1);
    assert!(node(&nexus, &fact).canon_level.is_canon());
    // Enough votes never buy self-description its way out of quarantine.
    assert!(!node(&nexus, &selfd).canon_level.is_canon());

    // Idempotent: an already-canon node is not promoted twice.
    assert_eq!(nexus.promote_confirmed_to_canon(3, CanonLevel::L1Project), 0);
    // And the promoted fact now survives what would otherwise evict it.
    nexus.enforce_capacity(0);
    assert!(nexus.contains_node(&fact));
}

#[test]
fn promotion_to_a_non_canon_level_does_nothing() {
    let mut g = MemoryGraphNexus::new();
    let id = mk(&mut g, "fact");
    g.record_human_feedback(&id, true);
    assert_eq!(g.promote_confirmed_to_canon(0, CanonLevel::NotCanon), 0);
    assert!(node(&g, &id).is_ephemeral);
    assert_eq!(g.promote_confirmed_to_canon(1, CanonLevel::L2Foundational), 1);
    assert!(!node(&g, &id).is_ephemeral);
    assert_eq!(node(&g, &id).canon_level, CanonLevel::L2Foundational);
}

#[test]
fn new_nodes_start_from_fixed_values() {
    let mut g = MemoryGraphNexus::new();
    let id = g.create_node("c".into(), "s".into(), vec!["Work".into()], SourceType::LlmSelfDescription, 3, None, CanonLevel::NotCanon);
    let n = node(&g, &id);
    // 0.45 capped by the 0.40 ceiling of self-description
    assert_eq!(n.importance, 0.40f32.to_bits());
    assert_eq!(n.confidence, 0.80f32.to_bits());
    assert_eq!(n.access_count, 1);
    assert_eq!(n.created_at, 1);
    assert_eq!(n.last_accessed_at, 1);
    assert!(n.is_ephemeral);
    assert_eq!(n.affect, AffectState::default());
    // ids are sixteen lowercase hex digits, different each time
    assert_eq!(id.len(), 16);
    assert!(id.chars().all(|c| c.is_ascii_hexdigit() && !c.is_ascii_uppercase()));
    let id2 = mk(&mut g, "d");
    assert_ne!(id, id2);
    assert_eq!(node(&g, &id2).created_at, 2);
}

#[test]
fn cluster_routing_lowercases_tags() {
    let g = MemoryGraphNexus::new();
    let tags = |t: &[&str]| t.iter().map(|s| s.to_string()).collect::<Vec<_>>();
    assert_eq!(g.infer_cluster_for_node(&SourceType::UserUtterance, &tags(&["SECRET"]), None), "private");
    assert_eq!(g.infer_cluster_for_node(&SourceType::UserUtterance, &tags(&["Family"]), None), "personal");
    assert_eq!(g.infer_cluster_for_node(&SourceType::UserUtterance, &tags(&["deadline"]), None), "work");
    assert_eq!(g.infer_cluster_for_node(&SourceType::UserUtterance, &tags(&["Bug"]), None), "system");
    assert_eq!(g.infer_cluster_for_node(&SourceType::UserUtterance, &tags(&["MILESTONE"]), None), "project");
    assert_eq!(g.infer_cluster_for_node(&SourceType::UserUtterance, &tags(&["misc"]), None), "shared");
    assert_eq!(g.infer_cluster_for_node(&SourceType::LlmSelfDescription, &tags(&["work"]), None), "system");
    assert_eq!(g.infer_cluster_for_node(&SourceType::LlmSelfDescription, &tags(&[]), Some("mine")), "mine");
}

#[test]
fn scope_clusters_follow_the_flags() {
    let g = MemoryGraphNexus::new();
    let base = g.get_scope_clusters("Ada", false, false);
    let with_all = g.get_scope_clusters("Ada", true, true);
    assert!(base.len() < with_all.len());
    assert!(with_all.contains(&"system".to_string()));
    assert!(with_all.contains(&"private".to_string()));
    assert!(!base.contains(&"system".to_string()));
    let mut sorted = with_all.clone();
    sorted.sort();
    sorted.dedup();
    assert_eq!(sorted, with_all);
}

#[test]
fn affect_is_set_on_existing_nodes_only() {
    let mut g = MemoryGraphNexus::new();
    let id = mk(&mut g, "stormy night conversation");
    let affect = AffectState {
        valence: (-1.0f32).to_bits(),
        arousal: 0.9f32.to_bits(),
        intensity: 1.0f32.to_bits(),
        source: "c_api".to_string(),
        timestamp: 0,
    };
    assert!(g.set_node_affect(&id, affect.clone()));
    assert_eq!(node(&g, &id).affect, affect);
    assert!(!g.set_node_affect("no-such-node", affect));
}

#[test]
fn recall_candidates_drop_quarantine_and_low_scores() {
    let mut g = MemoryGraphNexus::new();
    let user = mk(&mut g, "user fact");
    let selfd = g.create_node("i am an engine".into(), String::new(), vec![], SourceType::LlmSelfDescription, 11, None, CanonLevel::NotCanon);
    let c = |id: &str, s: f32| VectorSearchResult { node_id: id.to_string(), score: s.to_bits() };
    let kept = g.recall_candidates(vec![
        c(&selfd, 0.99),
        c(&user, 0.25),
        c(&user, 0.2499),
        c("missing", 0.9),
        c(&user, f32::NAN),
    ]);
    assert_eq!(kept.len(), 1);
    assert_eq!(kept[0].node_id, user);
    assert_eq!(kept[0].score, 0.25f32.to_bits());
}

#[test]
fn neighbors_are_symmetric() {
    let mut g = MemoryGraphNexus::new();
    let ids: Vec<String> = (0..5).map(|i| mk(&mut g, &format!("n{i}"))).collect();
    g.add_edge(&ids[0], &ids[1], "r", 0);
    g.add_edge(&ids[2], &ids[1], "r", 0);
    g.add_edge(&ids[3], &ids[4], "r", 0);
    g.add_edge(&ids[3], &ids[3], "r", 0);
    for x in &ids {
        for y in &ids {
            assert_eq!(g.neighbors(x).contains(y), g.neighbors(y).contains(x));
        }
    }
    assert_eq!(g.edges().len(), 3);
}

#[test]
fn graph_parts_round_trip_and_are_checked() {
    let mut g = MemoryGraphNexus::new();
    let a = mk(&mut g, "a");
    let b = mk(&mut g, "b");
    g.add_edge(&a, &b, "r", 7);
    let rebuilt = MemoryGraphNexus::from_parts(
        g.nodes().to_vec(),
        g.edges().to_vec(),
        g.hyperedges().to_vec(),
        g.topology().clone(),
        g.clock(),
        g.id_seed(),
    )
    .unwrap();
    assert_eq!(rebuilt.len(), 2);
    assert_eq!(rebuilt.neighbors(&a), vec![b.clone()]);
    assert_eq!(rebuilt.clock(), g.clock());

    // duplicated edge
    let mut edges = g.edges().to_vec();
    edges.push(edges[0].clone());
    assert!(MemoryGraphNexus::from_parts(g.nodes().to_vec(), edges, vec![], g.topology().clone(), 0, 0).is_none());
    // reversed edge is the same pair
    let mut edges = g.edges().to_vec();
    let mut rev = edges[0].clone();
    std::mem::swap(&mut rev.source_id, &mut rev.target_id);
    edges.push(rev);
    assert!(MemoryGraphNexus::from_parts(g.nodes().to_vec(), edges, vec![], g.topology().clone(), 0, 0).is_none());
    // nodes out of order
    let mut nodes = g.nodes().to_vec();
    nodes.reverse();
    assert!(MemoryGraphNexus::from_parts(nodes, vec![], vec![], g.topology().clone(), 0, 0).is_none());
    // importance above the ceiling
    let mut nodes = g.nodes().to_vec();
    nodes[0].importance = 1.5f32.to_bits();
    assert!(MemoryGraphNexus::from_parts(nodes, vec![], vec![], g.topology().clone(), 0, 0).is_none());
    // edge to a missing node
    let mut edges = g.edges().to_vec();
    edges[0].target_id = "zz".to_string();
    assert!(MemoryGraphNexus::from_parts(g.nodes().to_vec(), edges, vec![], g.topology().clone(), 0, 0).is_none());
}

#[test]
fn entity_tokens_follow_the_character_classes() {
    assert_eq!(entities_of("Alex's friend, Meridian! met Al and ZOË"), vec!["Alex", "Meridian", "ZOË"]);
    assert!(entities_of("no names here").is_empty());
    // With given classes: '-' counts as whitespace, 'x' as uppercase.
    let cs: Vec<(char, bool, bool, bool)> = "xyz-abc"
        .chars()
        .map(|c| (c, c == '-', c != '-', c == 'x'))
        .collect();
    assert_eq!(entities_of_classified(&cs), vec!["xyz"]);
}

#[test]
fn recall_lists_each_reached_node_once() {
    let mut g = MemoryGraphNexus::new();
    let a = mk(&mut g, "a");
    let b = mk(&mut g, "b");
    let c = mk(&mut g, "c");
    g.add_edge(&a, &b, "r", 0);
    g.add_edge(&b, &c, "r", 0);
    g.add_edge(&c, &a, "r", 0);
    let seeds = vec![b.clone(), a.clone()];
    let r = g.associative_recall(&seeds, 3);
    assert_eq!(r.len(), 3);
    assert_eq!(&r[..2], &[b.clone(), a.clone()]);
    let mut sorted = r.clone();
    sorted.sort();
    sorted.dedup();
    assert_eq!(sorted.len(), 3);
}

#[test]
fn single_precision_feedback_decides_eviction() {
    let mut g = MemoryGraphNexus::new();
    // a user fact confirmed then rejected ends at 0.40000004 in single precision
    let fact = mk(&mut g, "fact");
    g.record_human_feedback(&fact, true);
    g.record_human_feedback(&fact, false);
    // a self-description sits at its 0.40 ceiling and is touched later than the fact
    let selfd = g.create_node("i am".into(), String::new(), vec![], SourceType::LlmSelfDescription, 11, None, CanonLevel::NotCanon);
    assert_eq!(node(&g, &selfd).importance, 0.40f32.to_bits());
    // the lower importance goes first, recency notwithstanding
    assert_eq!(g.enforce_capacity(1), 1);
    assert!(g.get_node(&fact).is_some());
    assert!(g.get_node(&selfd).is_none());
}
