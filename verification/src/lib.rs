//! A verified nonogram (picross) solver.
//!
//! Given run-length constraints for every row and column of a grid, the
//! solver determines which cells must be filled and which must be empty by
//! constraint propagation: candidate placements are enumerated per line,
//! filtered against the cells already known, and their consensus is merged
//! back into the global state until a fixed point is reached.
pub mod bits;
pub mod board;
pub mod generate;
pub mod model;
pub mod runs;
