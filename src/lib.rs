//! A 9×9 Sudoku solver by depth-first backtracking search, with its rules
//! stated as specifications and the search proved sound and complete.
pub mod laws;
pub mod rules;
pub mod solution;
pub mod sudoku;

pub use solution::Solution;
pub use sudoku::Sudoku;
