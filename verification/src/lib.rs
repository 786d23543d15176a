//! Graph engine with a compressed-sparse-row layout and verified traversals.
//!
//! `edges` holds the mathematical model of an edge list, `csr` builds the CSR
//! layout from an edge list, `reach` models reachability and distances, and
//! `gpu_graph` holds the traversal algorithms (BFS, DFS, shortest paths,
//! topological sort) with contracts stated over that model.
pub mod edges;
pub mod csr;
pub mod reach;
pub mod gpu_graph;
pub mod in_degree;
pub mod backends;
pub mod planner;
pub mod unified;
pub mod dispatch;
pub mod laws;
