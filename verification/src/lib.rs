//! A verified 9x9 sudoku solver.
//!
//! The board is a grid of 81 cells, each either solved (holding a digit
//! 1..9) or unsolved (holding a mask of still-possible digits).  The
//! solver combines rule-based constraint propagation with backtracking
//! search; its contract states that a solved result is a complete,
//! consistent completion of the input, and that a "no solution" result
//! means no completion exists at all.

pub mod board;
pub mod laws;
pub mod rules;
pub mod solver;

pub use board::Error;
pub use board::SudokuCell;
pub use board::SudokuGrid;
pub use solver::SolveOutcome;
pub use solver::UniqueOutcome;
