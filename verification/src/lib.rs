//! Shortest-cost paths and reachable areas on 2D tile grids with
//! configurable movement topology, tile costs, and per-coordinate overrides.

pub mod coord;
pub mod grid;
pub mod search;
pub mod pathfinding;
