//! Synthetic graph generation after the recursive matrix (R-MAT) model.
//!
//! A graph on `2^n` vertices is a square boolean adjacency matrix. Edges are
//! placed one at a time by descending through quadrants of the matrix, each
//! chosen at random with fixed weights, until a single free cell is reached.

pub mod probabilities;
pub mod graph;
pub mod parse;
