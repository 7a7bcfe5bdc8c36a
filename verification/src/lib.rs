//! Sudoku boards that keep count of what blocks each cell, a generator that
//! fills a blank board by backtracking search, and a solver that completes a
//! partly filled one the same way. Every function is verified against its
//! contract; the pseudo-random numbers come from `rand_pcg`.

pub mod board;
pub mod board_generator;
pub mod grid;
pub mod randomness;
pub mod solver;
