//! A verified 9x9 Sudoku solver.
//!
//! A puzzle is a 9x9 grid of cell values in `0..=9`, where `0` marks an
//! empty cell.  The solver fills empty cells by backtracking search,
//! branching on the empty cell with the fewest admissible digits.

pub mod grid;
pub mod solver;
pub mod text;
