//! A verified 9x9 sudoku library.
//!
//! A grid cell is a bitset of candidate digits ([`value::Value`]), a board is
//! a fixed array of 81 cells ([`board::Sudoku`]), and [`solver::solve`]
//! performs exhaustive backtracking search guided by the board's group
//! validation. Every public operation carries a contract; the solver is
//! proved sound (a returned board is a solution of its input) and complete
//! (a `None` answer means no solution exists).

pub mod board;
pub mod solver;
pub mod value;
