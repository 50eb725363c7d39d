pub mod geometry;
pub mod heuristic;
pub mod board;
pub mod map;
pub mod packing;
pub mod solver;
pub mod cache;
pub mod driver;
