//! Uniform traversal of trees: a `Tree` can be taken apart into the flat list of
//! its values together with a way to put a list of values back into the same shape.

pub mod laws;
pub mod model;
pub mod tree;
