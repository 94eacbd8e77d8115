//! Critical-path analysis for directed acyclic graphs of build actions.
//!
//! Given a DAG and a per-vertex runtime, the library computes the critical
//! path (the longest-runtime source-to-sink path), its cost, and for every
//! vertex on that path the replacement cost: the overall critical-path cost
//! if that vertex had taken zero time.

pub mod breakpoint;
pub mod error;
pub mod graph;
mod heap;
pub mod potential;
pub mod transaction;
pub mod types;
