//! Symmetry-reduced distance tables and a gradient-descent solver for the
//! face-turning octahedron and its sub-puzzles.

pub mod indexing;
pub mod combination;
pub mod perm;
pub mod data;
pub mod state;
pub mod random;
pub mod symmetry;
pub mod tables;
pub mod stateset;
pub mod pruning;
pub mod solver;
pub mod sequences;
