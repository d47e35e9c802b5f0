//! The emotional disposition stored on each memory node. Values are single-precision
//! numbers carried as their bit patterns; the library stores them and never computes
//! with them.
use vstd::prelude::*;

verus! {

/// Valence in [-1, 1], arousal in [0, 1], intensity in [0, 1] (each an f32 as bits), with
/// where the reading came from and when.
#[derive(Debug, Clone, PartialEq)]
pub struct AffectState {
    pub valence: u32,
    pub arousal: u32,
    pub intensity: u32,
    pub source: String,
    pub timestamp: u64,
}

/// `0.2f32` as bits.
pub const BASELINE_AROUSAL_BITS: u32 = 0x3e4c_cccd;

/// `0.1f32` as bits.
pub const BASELINE_INTENSITY_BITS: u32 = 0x3dcc_cccd;

impl AffectState {
    /// The neutral baseline: valence 0.0, arousal 0.2, intensity 0.1, no timestamp.
    pub open spec fn is_neutral_baseline(self) -> bool {
        &&& self.valence == 0
        &&& self.arousal == BASELINE_AROUSAL_BITS
        &&& self.intensity == BASELINE_INTENSITY_BITS
        &&& self.source@ == "neutral_baseline"@
        &&& self.timestamp == 0
    }
}

impl Default for AffectState {
    fn default() -> (r: Self)
        ensures
            r.is_neutral_baseline(),
    {
        AffectState {
            valence: 0,
            arousal: BASELINE_AROUSAL_BITS,
            intensity: BASELINE_INTENSITY_BITS,
            source: "neutral_baseline".to_owned(),
            timestamp: 0,
        }
    }
}

} // verus!
