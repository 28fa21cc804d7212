//! Cycle detection in directed graphs given as lists of edges.
//!
//! `graph` builds an adjacency structure from edges, `detect` searches it for
//! a cycle with an iterative depth-first traversal, and `input` reads edges
//! from text and reports the outcome.
pub mod graph;
pub mod detect;
pub mod input;
