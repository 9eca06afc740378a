//! Perfect mazes on rectangular and masked grids.
//!
//! A grid is an arena of cells addressed by a dense index. Adjacency between
//! cells is fixed when the grid is built; passages ("links") are carved by one
//! of the maze algorithms and read by the distance engine.

pub mod error;
pub mod rng;
pub mod text;
pub mod grid;
pub mod algorithms;
pub mod distances;
