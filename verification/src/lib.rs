//! A constraint-propagation backtracking solver for 9x9 Sudoku grids.
//!
//! The board is a flat 81-cell value type; the solver keeps incremental
//! per-row/column/block candidate masks and a dirty-cell bitset, drains the
//! dirty set to apply forced moves, and branches over the candidates of the
//! first open cell when propagation stalls.

pub mod board;
pub mod bits;
pub mod solve;

pub use board::{Board, Coord, Number, Space};
pub use solve::solve;
