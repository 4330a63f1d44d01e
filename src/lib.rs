pub mod binary_tree;
pub mod laws;
pub mod model;
