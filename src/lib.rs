pub mod algo_store;
pub mod builder;
pub mod graph;
pub mod connectivity;
