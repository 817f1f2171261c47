#![verifier::loop_isolation(false)]

pub mod backtracking;
pub mod laws;
pub mod parse;
pub mod solve;
pub mod sudoku;
