//! Perfect mazes on rectangular grids, generated by seeded random algorithms.

pub mod builder;
