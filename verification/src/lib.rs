//! A sudoku solver whose candidate bookkeeping, unit reductions, guessing and
//! search are verified.

pub mod board;
pub mod cell;
pub mod grid;
pub mod laws;
pub mod lemmas;
pub mod solver;
pub mod units;
