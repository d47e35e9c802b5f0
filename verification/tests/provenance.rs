use astrum_memory::c_api::{canon_from_u8, source_from_u8};
use astrum_memory::canon::CanonLevel;
use astrum_memory::provenance::{PfcAction, PfcGuard, SourceType};
use astrum_memory::ricci_curvature::FormanRicciCalculator;

#[test]
fn test_provenance_caps_and_quarantine() {
    assert_eq!(SourceType::UserUtterance.rank_multiplier(), 135);
    assert_eq!(SourceType::LlmGeneration.rank_multiplier(), 55);
    assert_eq!(SourceType::LlmSelfDescription.rank_multiplier(), 0);
    assert!(SourceType::LlmSelfDescription.is_self_description());
}

#[test]
fn test_pfc_guard() {
    match PfcGuard::evaluate_similarity(0.95f32.to_bits(), "node_123") {
        PfcAction::RejectDuplicate => assert!(true),
        _ => panic!("Expected RejectDuplicate"),
    }
    match PfcGuard::evaluate_similarity(0.85f32.to_bits(), "node_123") {
        PfcAction::Elaborate(id) => assert_eq!(id, "node_123"),
        _ => panic!("Expected Elaborate"),
    }
    match PfcGuard::evaluate_similarity(0.50f32.to_bits(), "node_123") {
        PfcAction::Accept => assert!(true),
        _ => panic!("Expected Accept"),
    }
}

#[test]
fn pfc_guard_thresholds_are_inclusive_and_nan_accepts() {
    assert!(matches!(PfcGuard::evaluate_similarity(0.92f32.to_bits(), "n"), PfcAction::RejectDuplicate));
    assert!(matches!(PfcGuard::evaluate_similarity(0.82f32.to_bits(), "n"), PfcAction::Elaborate(_)));
    assert!(matches!(PfcGuard::evaluate_similarity(0.8199999f32.to_bits(), "n"), PfcAction::Accept));
    assert!(matches!(PfcGuard::evaluate_similarity(f32::NAN.to_bits(), "n"), PfcAction::Accept));
    assert!(matches!(PfcGuard::evaluate_similarity((-1.0f32).to_bits(), "n"), PfcAction::Accept));
}

#[test]
fn importance_ceilings_by_provenance() {
    assert_eq!(SourceType::UserUtterance.max_importance_cap(), 1.0f32.to_bits());
    assert_eq!(SourceType::VerifiedExternal.max_importance_cap(), 1.0f32.to_bits());
    assert_eq!(SourceType::ExternalDoc.max_importance_cap(), 0.85f32.to_bits());
    assert_eq!(SourceType::LlmGeneration.max_importance_cap(), 0.70f32.to_bits());
    assert_eq!(SourceType::LlmSelfDescription.max_importance_cap(), 0.40f32.to_bits());
    assert_eq!(SourceType::UnknownLegacy.max_importance_cap(), 0.50f32.to_bits());
    for s in [
        SourceType::UserUtterance,
        SourceType::LlmGeneration,
        SourceType::ExternalDoc,
        SourceType::VerifiedExternal,
        SourceType::UnknownLegacy,
    ] {
        assert!(!s.is_self_description());
        assert!(s.rank_multiplier() > 0);
    }
}

#[test]
fn test_canon_immortality_and_multipliers() {
    assert!(!CanonLevel::NotCanon.is_immortal());
    assert!(CanonLevel::L1Project.is_immortal());
    assert!(CanonLevel::L2Foundational.is_immortal());

    assert_eq!(CanonLevel::NotCanon.retrieval_multiplier(), 100);
    assert_eq!(CanonLevel::L1Project.retrieval_multiplier(), 115);
    assert_eq!(CanonLevel::L2Foundational.retrieval_multiplier(), 125);
}

#[test]
fn test_forman_ricci_edge() {
    // Triangle edge (deg 2, deg 2, 1 triangle) -> F = 4 - 2 - 2 + 3 = 3 (dense cluster)
    let f_dense = FormanRicciCalculator::calculate_edge_curvature(2, 2, 1);
    assert_eq!(f_dense, 3);

    // Bridge edge (deg 5, deg 6, 0 triangles) -> F = 4 - 5 - 6 + 0 = -7 (bottleneck)
    let f_bridge = FormanRicciCalculator::calculate_edge_curvature(5, 6, 0);
    assert_eq!(f_bridge, -7);
    assert!(f_bridge < 0);
}

#[test]
fn hyperedge_curvature_is_four_times_size_minus_degrees() {
    assert_eq!(FormanRicciCalculator::calculate_hyperedge_curvature(&[]), 0);
    assert_eq!(FormanRicciCalculator::calculate_hyperedge_curvature(&[1, 2, 3]), 12 - 6);
    assert_eq!(FormanRicciCalculator::calculate_hyperedge_curvature(&[10]), -6);
}

#[test]
fn c_abi_codes_decode() {
    assert_eq!(source_from_u8(0), SourceType::UserUtterance);
    assert_eq!(source_from_u8(1), SourceType::LlmGeneration);
    assert_eq!(source_from_u8(2), SourceType::LlmSelfDescription);
    assert_eq!(source_from_u8(3), SourceType::ExternalDoc);
    assert_eq!(source_from_u8(4), SourceType::VerifiedExternal);
    assert_eq!(source_from_u8(5), SourceType::UnknownLegacy);
    assert_eq!(source_from_u8(200), SourceType::UnknownLegacy);
    assert_eq!(canon_from_u8(0), CanonLevel::NotCanon);
    assert_eq!(canon_from_u8(1), CanonLevel::L1Project);
    assert_eq!(canon_from_u8(2), CanonLevel::L2Foundational);
    assert_eq!(canon_from_u8(9), CanonLevel::NotCanon);
}
