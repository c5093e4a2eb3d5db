//! An in-memory graph container: nodes named by caller-chosen identifiers,
//! optional payload per node, directed and undirected edges, and a small set
//! of structural queries with machine-checked contracts.
//!
//! - `model`: the mathematical structure of a graph and the operations on it.
//! - `graph`: the store, which keeps the structure in hash maps and vectors.
//! - `classify`: the tests for undirected and for directed acyclic graphs.
//! - `paths`: counting the paths between two nodes.
//! - `generators`: rings, grids, and graphs from a table of picks.
//! - `laws`, `walks`, `counting`, `order`: what holds of all graphs, proved
//!   over the model.
//! - `hashing`: the hash-map operations that the store rests on.

pub mod classify;
pub mod counting;
pub mod error;
pub mod generators;
pub mod graph;
pub mod hashing;
pub mod laws;
pub mod model;
pub mod order;
pub mod paths;
pub mod walks;

pub use error::GraphError;
pub use generators::generate_cycle_graph;
pub use generators::generate_grid_graph;
pub use generators::generate_random_graph;
pub use graph::Graph;
pub use model::Step;
pub use model::Topology;
pub use paths::count_paths;
