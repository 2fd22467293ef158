//! Front end of a compiler for a very small subset of C: a byte-level lexer
//! and a recursive-descent parser that builds a validated syntax tree.

pub mod lexer;
pub mod parser;
pub mod frontend;
