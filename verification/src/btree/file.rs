//! The B+ tree on the pages of a file.

pub mod item;
pub mod laws;
pub mod node;
pub mod tree;
