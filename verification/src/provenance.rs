//! Provenance guard and the self-citation filter: every fact carries who said it,
//! and the model's own self-description is quarantined from recall.
use vstd::prelude::*;
use crate::fbits;

verus! {

/// Who a fact came from.
#[derive(Debug, Clone, Copy, PartialEq, Eq, Structural)]
pub enum SourceType {
    UserUtterance,
    LlmGeneration,
    LlmSelfDescription,
    ExternalDoc,
    VerifiedExternal,
    UnknownLegacy,
}

/// Importance ceiling of each provenance, as a single-precision pattern: 1.00, 1.00, 0.85,
/// 0.70, 0.40 and 0.50.
pub open spec fn spec_importance_cap(s: SourceType) -> u32 {
    match s {
        SourceType::UserUtterance => 0x3f80_0000,
        SourceType::VerifiedExternal => 0x3f80_0000,
        SourceType::ExternalDoc => 0x3f59_999a,
        SourceType::LlmGeneration => 0x3f33_3333,
        SourceType::LlmSelfDescription => 0x3ecc_cccd,
        SourceType::UnknownLegacy => 0x3f00_0000,
    }
}

/// Retrieval rank multiplier of each provenance, in hundredths (135 = 1.35).
pub open spec fn spec_rank_multiplier(s: SourceType) -> u32 {
    match s {
        SourceType::UserUtterance => 135,
        SourceType::VerifiedExternal => 120,
        SourceType::ExternalDoc => 100,
        SourceType::LlmGeneration => 55,
        SourceType::LlmSelfDescription => 0,
        SourceType::UnknownLegacy => 90,
    }
}

impl SourceType {
    pub open spec fn spec_is_self_description(self) -> bool {
        self == SourceType::LlmSelfDescription
    }

    /// The model describing itself: this provenance is quarantined.
    pub fn is_self_description(&self) -> (r: bool)
        ensures
            r == self.spec_is_self_description(),
    {
        match self {
            SourceType::LlmSelfDescription => true,
            _ => false,
        }
    }

    /// Default importance cap based on proven provenance (an f32 pattern, at most 1.0).
    pub fn max_importance_cap(&self) -> (r: u32)
        ensures
            r == spec_importance_cap(*self),
            r <= 0x3f80_0000,
    {
        match self {
            SourceType::UserUtterance => 0x3f80_0000,
            SourceType::VerifiedExternal => 0x3f80_0000,
            SourceType::ExternalDoc => 0x3f59_999a,
            SourceType::LlmGeneration => 0x3f33_3333,
            SourceType::LlmSelfDescription => 0x3ecc_cccd,
            SourceType::UnknownLegacy => 0x3f00_0000,
        }
    }

    /// Score rank multiplier for retrieval, in hundredths. Self-description gets 0:
    /// it is quarantined from normal recall.
    pub fn rank_multiplier(&self) -> (r: u32)
        ensures
            r == spec_rank_multiplier(*self),
            r == 0 <==> self.spec_is_self_description(),
    {
        match self {
            SourceType::UserUtterance => 135,
            SourceType::VerifiedExternal => 120,
            SourceType::ExternalDoc => 100,
            // ungrounded model output: a steeper discount, so it does not leak into
            // top-k when relevant user facts are sparse
            SourceType::LlmGeneration => 55,
            SourceType::LlmSelfDescription => 0,
            SourceType::UnknownLegacy => 90,
        }
    }
}

/// Self-citation check run before a new fact is saved.
pub struct PfcGuard;

/// What to do with a candidate fact.
pub enum PfcAction {
    Accept,
    /// Too close to an existing node: elaborate that node instead (its id).
    Elaborate(String),
    RejectDuplicate,
}

/// `0.92f32` as bits: at or above this similarity a fact is a duplicate.
pub const DUPLICATE_THRESHOLD_BITS: u32 = 0x3f6b_851f;

/// `0.82f32` as bits: at or above this similarity a fact elaborates its neighbour.
pub const ELABORATE_THRESHOLD_BITS: u32 = 0x3f51_eb85;

impl PfcGuard {
    /// Prevents saving repetitive or redundant facts: `similarity` (an f32 given by its
    /// bits) against the closest existing node `target_node_id`.
    pub fn evaluate_similarity(similarity: u32, target_node_id: &str) -> (r: PfcAction)
        ensures
            fbits::spec_ge(similarity, DUPLICATE_THRESHOLD_BITS) ==> r is RejectDuplicate,
            !fbits::spec_ge(similarity, DUPLICATE_THRESHOLD_BITS) && fbits::spec_ge(
                similarity,
                ELABORATE_THRESHOLD_BITS,
            ) ==> (r matches PfcAction::Elaborate(id) && id@ == target_node_id@),
            !fbits::spec_ge(similarity, ELABORATE_THRESHOLD_BITS) ==> r is Accept,
    {
        if fbits::ge(similarity, DUPLICATE_THRESHOLD_BITS) {
            PfcAction::RejectDuplicate
        } else if fbits::ge(similarity, ELABORATE_THRESHOLD_BITS) {
            PfcAction::Elaborate(target_node_id.to_owned())
        } else {
            PfcAction::Accept
        }
    }
}

} // verus!
