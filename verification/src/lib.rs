//! Shortest paths for a round token among line-segment walls, on an integer grid.
//!
//! Coordinates and the token's size are whole grid units, in a unit of the
//! caller's choosing. Waypoints are grid points: each lies at the token's radius
//! from its corner, rounded away from the corner. The lengths of ways are
//! counted in cost units, of which a grid unit has a hundred thousand, and
//! every step of a way costs one cost unit on top.

pub mod math;
pub mod geometry;
pub mod tables;
pub mod wall;
pub mod direction;
pub mod graph;
pub mod next_node_queue;
pub mod pathfinder;
pub mod reference;
pub mod host;
pub mod shortest;
