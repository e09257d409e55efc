//! A Minesweeper board with a verified reveal cascade, and a solver that
//! ranks the cells of an untouched board by their chance of hiding a mine.

pub mod board;
pub mod solver;
