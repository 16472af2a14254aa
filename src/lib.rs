//! Sliding-tile puzzle solver: iterative deepening A* over flattened boards
//! whose blank tile must reach a chosen cell.

pub mod geometry;
pub mod moves;
pub mod node;
pub mod goal;
pub mod search;
pub mod driver;
pub mod laws;
