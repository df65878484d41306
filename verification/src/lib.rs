//! A 9×9 Sudoku board with legality checks, and a backtracking solver on it.

pub mod handlers;
pub mod notation;
pub mod protocol;
pub mod recursive_solver;
pub mod rules;
pub mod search_order;
pub mod sudoku_table;
