//! Incremental breadth-first search over a randomly generated proximity
//! graph.
//!
//! The crate has two parts: a graph builder that places nodes on an integer
//! grid and connects every pair closer than a given radius, and a search
//! engine that owns one such graph together with step-wise BFS state, so a
//! driving loop can advance the search one bounded unit of work at a time.

pub mod engine;
pub mod graph;
