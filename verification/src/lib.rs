pub mod cycle;
pub mod graph;
pub mod text;
