//! The failure of an offset computation.
use vstd::prelude::*;

verus! {

/// The single failure of an offset computation: resolving the raw contour
/// needed more crossings than the fixed cap allows.
///
/// The failure says nothing about where the contour went wrong, and trying
/// again gives it again. A smaller offset or coarser arcs may help.
#[derive(Clone, Copy, Debug, PartialEq, Eq, Structural)]
pub struct CombinatorialExplosionError;

impl CombinatorialExplosionError {
    /// The text that describes this error.
    pub open spec fn description() -> Seq<char> {
        "Combinatorial explosion."@
    }

    /// The text that describes this error.
    pub fn to_string(&self) -> (text: String)
        ensures
            text@ == Self::description(),
    {
        "Combinatorial explosion.".to_string()
    }
}

} // verus!
