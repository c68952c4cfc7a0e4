//! Closeness and betweenness centrality over a weighted undirected graph.
//!
//! - `model`: walks, their weights and shortest distances, as spec functions.
//! - `store`: the graph store, kept in a petgraph graph, with unique node names.
//! - `closeness`: exact closeness scores from single-source shortest paths.
//! - `brandes`: the forward phase of Brandes' algorithm (breadth-first layers,
//!   predecessor lists, shortest-path counts) and the normalizing divisor.
//! - `ingest`: fighter records and the fight graph built from them.
//! - `cli`: where the program reads and writes.
pub mod model;
pub mod store;
pub mod closeness;
pub mod brandes;
pub mod cli;
pub mod ingest;
