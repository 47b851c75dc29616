pub mod adjacency_list;
pub mod board;
pub mod dijkstras;
pub mod grid_actions;
pub mod pqueue;
pub mod utils;
pub mod visualizer;

use vstd::prelude::*;

verus! {

/// The state of one grid cell. `Off` cells are impassable obstacles; all other
/// states permit traversal. `Visited` and `Path` are transient annotations
/// produced by a search run.
#[derive(Clone, Copy, Debug, PartialEq, Eq, Structural)]
pub enum NodeStatus {
    On,
    Off,
    Start,
    End,
    Path,
    Visited,
}

} // verus!
