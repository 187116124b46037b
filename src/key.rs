//! Identity keys.
use vstd::prelude::*;

verus! {

/// Identifies "the same logical node" across passes: the place in the
/// description that asked for it, and the kind of thing it asked for.
///
/// Callers pick both tokens; the engine compares them and nothing more.
/// The same location reached twice in one scope (in a loop, say) names
/// the same entry unless the caller derives distinct locations.
#[derive(Clone, Copy, Debug, PartialEq, Eq, Hash, Structural)]
pub struct Key {
    pub location: u64,
    pub kind: u64,
}

impl Key {
    pub fn new(location: u64, kind: u64) -> (r: Self)
        ensures
            r.location == location,
            r.kind == kind,
    {
        Key { location, kind }
    }
}

} // verus!
