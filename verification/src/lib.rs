//! Conway's Game of Life on an unbounded plane of signed integer
//! coordinates.
//!
//! The board is sparse: only alive cells are stored, each with the
//! generation in which it was born. `tick` advances the whole board by one
//! generation of the classic B3/S23 rule, evaluating every cell against the
//! snapshot taken before the tick.

pub mod grid;
pub mod laws;
pub mod point;
pub mod rule;

pub use grid::Grid;
pub use point::neighbors;
pub use point::Point;
