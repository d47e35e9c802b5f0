use astrum_memory::affect_overlay::AffectState;
use astrum_memory::c_api::EngineState;
use astrum_memory::graph_nexus::MemoryGraphNexus;
use astrum_memory::vector_index::SimpleVectorIndex;

fn bits(v: &[f32]) -> Vec<u32> {
    v.iter().map(|x| x.to_bits()).collect()
}

#[test]
fn feedback_drives_eviction_and_frees_the_index() {
    let mut e = EngineState::new();
    // Two equally valid user facts; the first is also the better match for a query.
    let id_bad = e.add_node("misheard fact".into(), "", 0, 2, 0, Some(bits(&[1.0, 0.0, 0.0])));
    let id_good = e.add_node("correct fact".into(), "", 0, 2, 0, Some(bits(&[0.9, 0.1, 0.0])));
    assert_eq!(e.index().as_ref().unwrap().len(), 2);

    // A human says the close match was wrong and the other one was right.
    assert_eq!(e.record_feedback(&id_bad, 0), 0);
    assert_eq!(e.record_feedback(&id_good, 1), 0);
    assert_eq!(e.record_feedback("no-such-node", 1), 2);

    // Under pressure the rejected fact goes, the confirmed one stays.
    assert_eq!(e.enforce_capacity(1), 1);
    assert_eq!(e.nexus().len(), 1);
    assert!(e.nexus().contains_node(&id_good), "confirmed fact should survive");
    // The evicted node's embedding is gone too.
    assert_eq!(e.index().as_ref().unwrap().len(), 1, "index must shed evicted vectors");
    assert_eq!(e.index().as_ref().unwrap().ids(), vec![id_good.clone()]);

    // Promotion is explicit and makes the fact immortal.
    assert_eq!(e.promote_confirmed(1, 2), 1);
    assert_eq!(e.enforce_capacity(0), 0);
    assert_eq!(e.nexus().len(), 1);
}

#[test]
fn first_embedding_fixes_the_dimension() {
    let mut e = EngineState::new();
    assert!(e.index().is_none());
    let a = e.add_node("no vector".into(), "t", 0, 1, 0, None);
    assert!(e.index().is_none());
    let _ = e.add_node("empty vector".into(), "t", 0, 1, 0, Some(vec![]));
    assert!(e.index().is_none());
    let b = e.add_node("three".into(), "t", 0, 1, 0, Some(bits(&[1.0, 2.0, 3.0])));
    assert_eq!(e.index().as_ref().unwrap().dimension(), 3);
    let _ = e.add_node("two".into(), "t", 0, 1, 0, Some(bits(&[1.0, 2.0])));
    assert_eq!(e.index().as_ref().unwrap().len(), 1);
    assert_eq!(e.nexus().len(), 4);
    assert!(e.nexus().contains_node(&a) && e.nexus().contains_node(&b));
}

#[test]
fn add_node_decodes_the_c_values() {
    let mut e = EngineState::new();
    let id = e.add_node("i am an engine".into(), " meta , Work ,", 2, 11, 1, None);
    let n = e.nexus().get_node(&id).unwrap();
    assert_eq!(n.content, "i am an engine");
    assert_eq!(n.summary, "i am an engine");
    assert_eq!(n.tags, vec!["meta".to_string(), "Work".to_string()]);
    assert!(n.source_type.is_self_description());
    assert_eq!(n.cluster_id, "system");
    assert_eq!(n.cell_id, 11);
    assert!(n.canon_level.is_canon());
    assert!(!n.is_ephemeral);
}

#[test]
fn set_affect_reports_unknown_nodes() {
    let mut e = EngineState::new();
    let id = e.add_node("stormy night conversation".into(), "", 0, 17, 0, None);
    let affect = AffectState {
        valence: (-1.0f32).to_bits(),
        arousal: 0.9f32.to_bits(),
        intensity: 1.0f32.to_bits(),
        source: "c_api".to_string(),
        timestamp: 0,
    };
    assert_eq!(e.set_affect(&id, affect.clone()), 0);
    assert_eq!(e.set_affect("no-such-node", affect), 2);
    let n = e.nexus().get_node(&id).unwrap();
    assert_eq!(f32::from_bits(n.affect.valence), -1.0);
    assert_eq!(f32::from_bits(n.affect.intensity), 1.0);
    assert_eq!(n.affect.source, "c_api");
}

#[test]
fn engine_loads_a_stray_embedding_until_eviction_clears_it() {
    let mut g = MemoryGraphNexus::new();
    let a = g.create_node("x".into(), String::new(), vec![], astrum_memory::provenance::SourceType::UserUtterance, 1, None, astrum_memory::canon::CanonLevel::NotCanon);
    let b = g.create_node("y".into(), String::new(), vec![], astrum_memory::provenance::SourceType::UserUtterance, 1, None, astrum_memory::canon::CanonLevel::NotCanon);
    let mut idx = SimpleVectorIndex::new(1);
    idx.insert(a.clone(), bits(&[1.0])).unwrap();
    assert!(EngineState::from_parts(g.clone(), Some(idx.clone())).is_some());
    // an embedding of a node the graph does not store loads as it is
    idx.insert("stranger".into(), bits(&[1.0])).unwrap();
    idx.insert(b.clone(), bits(&[1.0])).unwrap();
    let mut e = EngineState::from_parts(g.clone(), Some(idx)).unwrap();
    assert_eq!(e.index().as_ref().unwrap().len(), 3);
    // an eviction keeps only the embeddings of stored nodes
    assert_eq!(e.enforce_capacity(1), 1);
    let left = e.index().as_ref().unwrap();
    assert_eq!(left.len(), 1);
    assert!(e.nexus().get_node(&left.entries()[0].0).is_some());
    assert!(EngineState::from_parts(g, None).is_some());
}

#[test]
fn eviction_keeps_the_index_dimension() {
    let mut e = EngineState::new();
    let _ = e.add_node("a".into(), "", 0, 1, 0, Some(bits(&[1.0, 0.0])));
    assert_eq!(e.enforce_capacity(0), 1);
    assert_eq!(e.index().as_ref().unwrap().len(), 0);
    assert_eq!(e.index().as_ref().unwrap().dimension(), 2);
    // a later embedding of the first dimension is still indexed, another one is not
    let b = e.add_node("b".into(), "", 0, 1, 0, Some(bits(&[0.0, 1.0])));
    let _ = e.add_node("c".into(), "", 0, 1, 0, Some(bits(&[0.0, 1.0, 2.0])));
    assert_eq!(e.index().as_ref().unwrap().ids(), vec![b]);
}
