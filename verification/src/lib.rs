//! A verified simulation kernel for Conway's Game of Life on a fixed-size,
//! sharp-edged (non-toroidal) grid.
//!
//! The kernel keeps, for every cell, a packed byte holding its alive flag and
//! a cached count of its alive neighbours, plus a list of the coordinates of
//! the currently alive cells (the active set). Advancing a generation walks
//! outward from the active set instead of rescanning the whole grid, so its
//! cost is proportional to the number of live cells.

pub mod board;
pub mod cell;
pub mod driver;
pub mod grid;
pub mod player;
mod rng;

pub use board::Board;
pub use cell::Cell;
pub use driver::{EmptyBoard, GameOfLifeBoard};
pub use grid::Grid;
pub use player::Player;
