//! The six strategies, one module each.

pub mod astar;
pub mod bfs;
pub mod custom;
pub mod dfs;
pub mod dijkstra;
pub mod random;
