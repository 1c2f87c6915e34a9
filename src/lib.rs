//! A Sudoku solver over candidate sets: constraint propagation to a fixed point, and a
//! backtracking search that branches on the least constrained cell.
pub mod candidates;
pub mod board;
pub mod propagate;
pub mod search;
pub mod text;
