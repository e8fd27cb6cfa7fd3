//! Least-cost path queries on weighted directed graphs.
//!
//! A [`graph::Graph`] stores directed edges with non-negative integer
//! weights. [`graph::Graph::uniform_cost_search`] returns the minimum total
//! weight over all directed paths between two nodes, or `None` when the goal
//! cannot be reached. The meaning of "minimum over all paths" is spelled out
//! by the specification functions in [`paths`], and the search is verified
//! against them.

pub mod graph;
pub mod paths;
pub mod search;

pub use graph::Graph;
pub use paths::{connected, is_min_cost, path_cost, path_ok, reaches, Edge};
