//! Perfect mazes on a rectangular grid and six strategies that search them,
//! each returning the same kind of record so that runs can be compared.

pub mod algorithms;
pub mod clock;
pub mod generator;
pub mod grid;
pub mod laws;
pub mod menu;
pub mod point_map;
pub mod point_set;
pub mod render;
pub mod rng;
pub mod search;
pub mod solution;
pub mod summary;
pub mod tree;

pub use algorithms::astar::astar_solve;
pub use algorithms::bfs::bfs_solve;
pub use algorithms::custom::custom_solve;
pub use algorithms::dfs::dfs_solve;
pub use algorithms::dijkstra::dijkstra_solve;
pub use algorithms::random::random_solve;
pub use grid::{Cell, Maze, Point};
pub use solution::Solution;
