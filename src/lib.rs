//! A Sudoku puzzle generator: a constraint validator, a randomized
//! constructive fill and a hole carver, with their behaviour proved.

pub mod gameboard;
pub mod generator;
pub mod matrix;
pub mod random;
