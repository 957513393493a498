//! Which movement rules govern piece slots 4 and 5. The physical pieces are the same
//! under all three; only how they move changes.

use vstd::prelude::*;

verus! {

#[derive(Debug, Clone, Copy, PartialEq, Eq, Structural)]
pub enum RaptorPachydermRules {
    /// Default. Falcon: exactly three orthogonal unit steps, airborne until the last,
    /// so it reaches every square at distance 1 or 3 (16 squares). Mammoth: moves like
    /// a rook, and on capturing may trample through and keep sliding.
    FalconMammoth,
    /// Seirawan-Harper. Hawk = Knight + Bishop; Elephant = Knight + Rook; both blocked
    /// as usual.
    SeirawanHarper,
    /// "Realism": the Elephant's knight move needs a clear orthogonal L-path (either
    /// route); the Hawk's knight and bishop moves fly over any piece.
    Realism,
}

impl RaptorPachydermRules {
    /// The default rules, FalconMammoth.
    pub fn default_rules() -> (r: Self)
        ensures
            r == RaptorPachydermRules::FalconMammoth,
    {
        RaptorPachydermRules::FalconMammoth
    }
}

} // verus!
