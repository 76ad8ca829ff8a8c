//! Grid puzzles solved by composing grid transformations.
//!
//! A grid is a rectangle of color codes. The crate offers a sparse,
//! pivot-relative overlay of a grid region with composable operations
//! ([`operations`]), the segmentation of a grid into connected same-color
//! objects ([`algorithm`]), a bounded greedy search for a sequence of
//! operations that reproduces training pairs ([`solver`]), and the plain-value
//! forms in which tasks come in and solutions go out ([`io`]).

pub mod algorithm;
pub mod io;
pub mod operations;
pub mod solver;
pub mod types;
