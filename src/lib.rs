//! Conway's Game of Life on a fixed-size grid, stored as packed 64-bit words
//! and advanced one generation at a time with word-parallel bit arithmetic.

pub mod app;
pub mod board;
pub mod geom;
pub mod grid;
pub mod laws;
pub mod rule;
pub mod word;
