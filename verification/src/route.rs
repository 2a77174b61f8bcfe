//! A tour paired with its total cost.

use crate::path::Path;
use vstd::prelude::*;

verus! {

/// A tour and the cost it was last evaluated at. The two are kept
/// consistent at the boundaries of every search step.
#[derive(PartialEq, Eq, Debug)]
pub struct Route {
    /// Total weight of the edges of `path` under the matrix it was built
    /// against.
    pub cost: u32,
    /// The tour itself.
    pub path: Path,
}

impl Route {
    /// Pair a tour with its cost.
    pub fn new(cost: u32, path: Path) -> (r: Route)
        ensures
            r.cost == cost,
            r.path == path,
    {
        Route { cost, path }
    }
}

} // verus!
