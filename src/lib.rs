//! A small JSON reader and writer: a recursive-descent parser from text to a value tree,
//! and a compact renderer from the tree back to text.
mod chars;
pub mod grammar;
pub mod json;
pub mod laws;
pub mod render;
pub mod value;
