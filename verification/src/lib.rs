//! Conway's Game of Life on a bounded grid.
//!
//! A [`board::Board`] holds the grid dimensions and the set of alive cells;
//! the engine module computes the next generation from the classic
//! survival/birth rule, evaluated at every in-bounds coordinate.

pub mod board;
pub mod engine;
pub mod laws;
