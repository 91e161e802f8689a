//! Shortest distances in an undirected graph: adjacency lists built from an
//! edge list, breadth-first search, Dijkstra's algorithm over a binary heap,
//! all-pairs distances within a random sample of vertices, and exact totals
//! for the statistics of those distances.
pub mod graph_algos;
pub mod graph_reader;
pub mod min_heap;
pub mod paths;
pub mod stats;
