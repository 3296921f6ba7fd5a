//! Front end of the Hail bootstrap compiler: source maps, lexing, parsing,
//! and the location-annotated abstract syntax tree.

pub mod ast;
pub mod error;
pub mod lexer;
pub mod loc;
pub mod parser;
pub mod source_map;
pub mod token;

pub use loc::{Loc, Span};
