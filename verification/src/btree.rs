//! B+ trees: nodes of keys, pointers and key-value pairs, in memory and on
//! the pages of a file.

pub mod file;
pub mod key;
pub mod laws;
pub mod node;
pub mod shape;
pub mod tree;
