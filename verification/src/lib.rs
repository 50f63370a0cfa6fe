//! Incremental PageRank over a citation graph that grows one epoch at a time.
//!
//! Each epoch adds a batch of edges to a persistent graph and refines the
//! ranks of all vertices by repeated redistribution along the edges, starting
//! from the ranks the previous epoch left behind. Events are held back until
//! the frontiers of their inputs show that their logical time is complete.
//!
//! Ranks are fixed-point numbers: a rank is a count of billionths, so every
//! formula of the engine is exact integer arithmetic with a stated rounding.

pub mod buffer;
pub mod controller;
pub mod convergence;
pub mod engine;
pub mod graph;
pub mod mass;
pub mod operator;
pub mod parse;
pub mod rank;
pub mod report;
pub mod sums;
pub mod time;
pub mod vertices;

