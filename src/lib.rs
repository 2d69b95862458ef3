//! Road-network routing: a graph built from an OpenStreetMap-style extract,
//! nearest-node resolution and A* search over integer edge weights.
pub mod document;
pub mod graph;
pub mod ingest;
pub mod numbers;
pub mod pathfinding;
