//! A 9x9 Sudoku solver working over an exact-cover formulation.
//!
//! A puzzle is turned into a set of 324 constraint columns (cell occupancy,
//! row/value, column/value and block/value requirements), each mapped to the
//! candidate digit placements that would satisfy it.  A recursive
//! backtracking search repeatedly picks the most constrained open column,
//! covers it (removing the column and every conflicting candidate from the
//! store, keeping an undo record), and recurses; covers are undone exactly on
//! backtrack.

pub mod codec;
pub mod laws;
pub mod matrix;
pub mod model;
pub mod search;
