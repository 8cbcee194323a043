//! A Sudoku solver that works by constraint propagation and binary guessing,
//! with its bookkeeping and its answers proved against a mathematical model.

pub mod board;
pub mod candidates;
pub mod error;
pub mod grid;
pub mod laws;
pub mod progress;
pub mod propagation;
pub mod puzzle;
pub mod search;
pub mod solve;
pub mod soundness;
pub mod text;

pub use error::SolveError;
pub use grid::Grid;
