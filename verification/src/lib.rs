//! A TOML document model that keeps every byte of the source text:
//! whitespace, comments and key order survive a parse and re-render.
pub mod ast;
pub mod grammar;
pub mod laws;
pub mod objects;
pub mod parser;
pub mod readback;
pub mod state;
pub mod types;
pub mod value_parser;
