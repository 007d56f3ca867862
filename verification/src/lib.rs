//! Offline packing for logistics: first-fit placement of rectangular
//! items into containers, and exact subset selection under weight and
//! volume limits. All measures are whole numbers of a caller-chosen unit.

pub mod allocation;
pub mod bin;
pub mod geometry;
pub mod item;
pub mod knapsack;
pub mod order;
pub mod planner;
pub mod solver;
pub mod sorting;

use vstd::prelude::*;

verus! {

/// A fixed greeting, by which a caller tells that the library is loaded.
pub fn test_wasm() -> (greeting: String)
    ensures
        greeting@ == "WASM Loaded..."@,
{
    "WASM Loaded...".to_owned()
}

} // verus!
