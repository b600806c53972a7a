//! Server configuration: the in-memory tree and its text format.

pub mod ast;
pub mod parser;
