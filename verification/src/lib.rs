//! Graph algorithms over lazily explored directed graphs, with machine-checked contracts.
//!
//! - [`graph`]: the mathematical model of a directed graph, with walks, cycles and
//!   reachability.
//! - [`graph_node`]: what a graph has to offer to be explored.
//! - [`feedback_set`]: the computation of a feedback vertex set of what can be reached from
//!   given entry points.
//! - [`theorems`]: what holds of that set, whatever the graph and the entry points.
//! - [`integer_graph`]: graphs over the numbers from zero up, given by successor lists.
//! - [`cycle_check`]: an independent search for cycles, to check a feedback set with.

pub mod cycle_check;
pub mod feedback_set;
pub mod graph;
pub mod graph_node;
pub mod integer_graph;
pub mod theorems;
