//! A single-threaded builder of layered proximity graphs (HNSW) over a fixed
//! set of points, with verified adjacency invariants.
pub mod types;
pub mod entry_points;
pub mod fixed_length_priority_queue;
pub mod graph_linear_builder;
