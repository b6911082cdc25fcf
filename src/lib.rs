//! A front end for a tag-based markup language whose tags may carry a fence
//! of `#` characters, inside which the body is read as raw text.
//!
//! The pipeline: [`lexer`] turns the source into tokens, [`parser`] builds a
//! lossless concrete syntax tree and collects every syntax error, [`tree`]
//! reduces that tree to elements and text, and [`processor`] rewrites
//! elements by tag name.
pub mod file;
pub mod lexer;
pub mod parser;
pub mod processor;
pub mod span;
pub mod syntax_error;
pub mod text;
pub mod tree;

pub use parser::parse;
pub use processor::Processor;
pub use tree::{Attrs, Tree};
