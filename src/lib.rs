//! A 9x9 Sudoku solver: candidate-set cells, group-based constraint
//! propagation run to a fixpoint, and an exhaustive backtracking search.
pub mod board;
pub mod cell;
pub mod geometry;
pub mod laws;
pub mod parse;
pub mod search;

pub use board::SudokuBoard;
pub use cell::SudokuCell;
