//! A parser and pretty-printer for a small JSON-like document language.
//!
//! `parser` turns text into a `JSON` document tree, `render` turns a tree back
//! into text. Both are proved against the grammar and the rendering rules that
//! are stated as spec functions next to them.
pub mod text;
pub mod value;
pub mod parser;
pub mod render;
pub mod locality;
pub mod gaps;
pub mod laws;
