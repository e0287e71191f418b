//! Str8ts puzzles: the grid, its compartments, and the binary model whose
//! feasible points are the puzzle's completions.

pub mod grid;
pub mod order;
pub mod selection;
pub mod compartments;
pub mod model;
pub mod encoder;
pub mod solution;
pub mod completion;
pub mod correspondence;
