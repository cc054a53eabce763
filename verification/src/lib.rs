//! Closeness and betweenness centrality of a directed graph, with the
//! shortest-path reasoning behind both measures machine-checked.

pub mod betweenness;
pub mod bfs;
pub mod closeness;
pub mod counting;
pub mod dependency;
pub mod edge_list;
pub mod graph;
pub mod parse;
pub mod paths;
pub mod plan;
pub mod shortest_paths;
pub mod sums;
