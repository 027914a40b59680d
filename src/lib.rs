pub mod brute;
pub mod edge;
pub mod edges;
pub mod graph;
pub mod graph_type;
pub mod matrix;
pub mod parallel;
