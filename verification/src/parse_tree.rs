//! Parse trees: the derivation structure that the tree generator
//! builds instead of a flat string.

pub mod tree;
