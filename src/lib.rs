//! Waypoint-graph navigation: a weighted graph over 2D nodes, shortest-path
//! search between two of its nodes, and the per-tick step that lets an agent
//! follow such a path toward a moving target.
pub mod geom;
pub mod graph;
pub mod math;
pub mod navigation;
pub mod pathfinding;
