//! A verified core for a minimal in-memory key-value server speaking a
//! line-oriented, length-prefixed wire protocol: a codec between byte
//! buffers and value trees, a parser from values to commands, and a
//! store with per-entry lazy expiry.

pub mod command;
pub mod data;
pub mod database;
pub mod error;
pub mod laws;
pub mod lines;
pub mod num;
pub mod parser;
pub mod serializer;
pub mod text;
pub mod value;
