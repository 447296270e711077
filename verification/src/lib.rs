//! A minimal in-memory graph: incremental construction (add a vertex,
//! connect two vertices with a weighted edge record stored on both
//! endpoints) and two read-only distance queries — an unweighted traversal
//! with a last-in-first-out frontier, and a weighted traversal driven by an
//! outside priority queue.

pub mod graphs;
pub mod laws;
pub mod pqueue;
