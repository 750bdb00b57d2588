//! The syntax tree of a TOML document, keeping all of its source text.
pub mod structs;
pub mod values;
pub mod document;
pub mod keys;
