//! Converts a small dialect of TOML into indented YAML-like text.
//!
//! `parser` reads text into the tree of `ir`, exactly as the rules of `grammar`
//! state; `generator` renders that tree in an expanded or a compact layout.
pub mod generator;
pub mod grammar;
pub mod ir;
pub mod parser;
pub mod text;

pub use generator::{indent_all, indent_inbetween, render, Mode};
pub use ir::{
    Array, Document, FloatLiteral, Identifier, InlineTable, Pair, ParseError, Table, Value,
};
pub use parser::{
    parse, parse_array, parse_boolean, parse_document, parse_float, parse_identifier,
    parse_inline_table, parse_integer, parse_pair, parse_string, parse_table, parse_table_body,
    parse_value,
};
