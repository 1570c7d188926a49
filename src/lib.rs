//! A verified 9x9 Sudoku engine: a constraint checker, a generator that seeds the diagonal
//! blocks and completes the grid by backtracking before clearing cells, and the state of a
//! game in progress with its single mutation and its win test.

pub mod generator;
pub mod grid;
mod random;
pub mod solver;
pub mod state;
