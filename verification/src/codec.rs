//! Self-describing little-endian binary encoding of typed records.

pub mod compare;
pub mod deserialize;
pub mod error;
pub mod field;
pub mod le;
pub mod number;
pub mod parse;
pub mod roundtrip;
pub mod serialize;
pub mod wire;
