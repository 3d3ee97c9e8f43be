//! Verified graph algorithms: an indexed binary min-heap with
//! delete-by-identity, a single-source shortest-path solver (Dijkstra)
//! over weighted undirected graphs, and a strongly-connected-components
//! solver (Kosaraju) over directed graphs.

pub mod graph;
pub mod heap;
pub mod parse;
pub mod scc;
