//! A generalized Sudoku engine: a square grid of side `size * size`, built
//! from `size x size` boxes, that tracks which values are still legal at each
//! cell and searches for a complete, rule-consistent assignment.
pub mod board;
pub mod checker;
pub mod constraints;
pub mod grid;
pub mod json;
pub mod laws;
pub mod loc;
pub mod text;

pub use board::{Board, Conflict};
pub use loc::Loc;
