//! Canon levels: facts that are exempt from capacity eviction.
use vstd::prelude::*;

verus! {

/// How foundational a fact is. Canon facts (L1/L2) are never evicted under
/// capacity pressure.
#[derive(Debug, Clone, Copy, PartialEq, Eq, Structural, PartialOrd, Ord)]
pub enum CanonLevel {
    NotCanon,
    /// Project-level canon (tracks, clips, studio role facts).
    L1Project,
    /// Core foundational canon (agent essence, primary user profile).
    L2Foundational,
}

impl CanonLevel {
    pub open spec fn spec_is_canon(self) -> bool {
        self != CanonLevel::NotCanon
    }

    /// True for L1 and L2.
    pub fn is_canon(&self) -> (r: bool)
        ensures
            r == self.spec_is_canon(),
    {
        *self != CanonLevel::NotCanon
    }

    /// Exempt from capacity eviction and pruning: exactly the canon levels.
    pub fn is_immortal(&self) -> (r: bool)
        ensures
            r == self.spec_is_canon(),
    {
        self.is_canon()
    }

    /// Retrieval multiplier for ranking, in hundredths (115 = 1.15). Exposed as API;
    /// recall ranking deliberately does not use it.
    pub fn retrieval_multiplier(&self) -> (r: u32)
        ensures
            r == match *self {
                CanonLevel::NotCanon => 100u32,
                CanonLevel::L1Project => 115u32,
                CanonLevel::L2Foundational => 125u32,
            },
    {
        match self {
            CanonLevel::NotCanon => 100,
            CanonLevel::L1Project => 115,
            CanonLevel::L2Foundational => 125,
        }
    }
}

} // verus!
