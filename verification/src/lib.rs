//! A Sudoku solver that works on whole placement patterns rather than on cells.
//!
//! Every digit of a solved Sudoku occupies exactly one cell in each row, each
//! column and each 3x3 box. Such a pattern is a *path*. The solver picks one
//! path per digit so that the nine paths are pairwise disjoint and agree with
//! the clues of the puzzle.

pub mod bitfield;
pub mod board;
mod counting;
pub mod digit;
pub mod grid;
pub mod path;
pub mod permutation;
pub mod solver;

pub use bitfield::Bitfield;
pub use board::Board;
pub use digit::Digit;
pub use path::{generate_paths, new_box};
pub use permutation::permutations;
pub use solver::{candidates, solve, solve_helper};
