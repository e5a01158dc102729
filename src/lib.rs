pub mod traits;
pub mod graph_repr;
pub mod graph;
pub mod directed_graph;
pub mod function_graph;
