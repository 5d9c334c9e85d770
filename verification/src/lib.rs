//! Structural representations of directed multigraphs: dense matrices,
//! adjacency and incidence matrices, and vertex degree statistics.

pub mod graph;
pub mod matrix;
pub mod render;
pub mod sums;
