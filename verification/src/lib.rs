//! Minimum spanning trees over dense adjacency matrices, and the tree-doubling
//! approximation of a travelling-salesman tour built on them.
//!
//! A graph is a square matrix of `i32` weights in which `0` means "no edge".
//! [`mst::build_mst`] grows a spanning tree by repeatedly taking the lightest
//! edge that crosses from the tree to the rest of the graph;
//! [`tour::approximate_tour`] walks that tree depth first, shortcuts the walk
//! into a cycle through every vertex and prices the cycle in the original graph.
//! [`doubling::tree_doubling_tour`] does both, and [`parse::parse_matrix`]
//! reads the matrix from the lines of a text.
//!
//! Every function is verified against the contract it carries, but for the
//! one call into the `regex` crate in [`parse`], whose contract is taken on
//! trust.

pub mod doubling;
pub mod edge;
pub mod forest;
pub mod graph;
pub mod minimum;
pub mod mst;
pub mod parse;
pub mod queue;
pub mod tour;
pub mod walk;
