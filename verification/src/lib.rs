//! Exact shortest-solution search for a 4x4 grid puzzle.
//!
//! The player walks over a grid of cell magnitudes. Leaving an occupied cell
//! fires a ray in the direction of the move that combines the cell's magnitude
//! with every occupied cell it meets; the puzzle is solved when every cell is
//! zero. The crate holds the packed board and its move rule, the packed list of
//! moves, the table of shortest walks over empty cells, and the breadth-first
//! search that ties them together.

pub mod action;
pub mod board;
pub mod marks;
pub mod optimal;
pub mod solve;
pub mod text;
pub mod values;
pub mod walk;
