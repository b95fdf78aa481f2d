//! A bounded, depth-limited quadtree over an arena of stable handles, and the
//! per-tick neighbour search of a flocking simulation built on it.

pub mod coord;
pub mod flock;
mod handle_set;
pub mod node;
pub mod region;
pub mod slot_map;
pub mod tree;

use vstd::prelude::*;

verus! {

/// A leaf holding more entries than this splits, unless it is at `MAX_DEPTH`.
pub const MAX_CELL_SIZE: usize = 10;

/// The greatest depth of a cell; cells there never split.
pub const MAX_DEPTH: usize = 7;

} // verus!
