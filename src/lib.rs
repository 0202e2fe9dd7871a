//! Binding of a concrete syntax tree into typed values described by a schema.
//!
//! A schema is processed once into a table of binding rules (see [`schema`]);
//! the bind engine (see [`node`]) then interprets that table against a
//! concrete tree (see [`tree`]) and produces [`value::Value`]s.
pub mod node;
pub mod parse;
pub mod schema;
pub mod tree;
pub mod value;

pub use node::Node;
pub use parse::{parse, parse_collecting};
pub use schema::derive_from_tree_sitter;
pub use value::{Error, ErrorKind, Value};
