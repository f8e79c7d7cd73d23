//! Stepwise grid pathfinding and procedural cave generation.
//!
//! The crate holds a fixed-size occupancy grid, four search algorithms that
//! advance one frontier pop at a time (breadth-first, depth-first,
//! uniform-cost and A*), and a cave generator that fills, smooths and prunes
//! a grid before placing the two endpoints of a search on it.

pub mod astar;
pub mod bfs;
pub mod cellular_automata;
pub mod completeness;
pub mod dfs;
pub mod dijkstra;
pub mod driver;
pub mod endpoints;
pub mod frontier;
pub mod grid;
pub mod lookup;
pub mod optimality;
pub mod pathfinding;
pub mod random;
pub mod regions;
pub mod soundness;
pub mod termination;
