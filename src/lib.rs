//! A parser for a small line-oriented configuration notation (`key = value`,
//! `key: value`, and `key:` to open a nested object), with renderers back to
//! the notation and to JSON.
//!
//! Parsing runs in two passes: each line is turned into a binding of a
//! dotted path to a raw value, then a tree is built from those bindings.
pub mod comments;
pub mod json;
pub mod parser;
pub mod render;
pub mod round_trip;
pub mod text;
pub mod value;

pub use json::to_json;
pub use parser::{parse, ParseError};
pub use render::to_text;
pub use value::Value;
