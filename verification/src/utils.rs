pub mod graph;
pub mod reach;
pub mod sexpr;
pub mod tree;
