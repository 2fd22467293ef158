//! Syntax analysis: the tree, the grammar as a mathematical model, and the
//! executable parser proved against that model.

pub mod ast;
pub mod grammar;
pub mod literal;
pub mod parser;
pub mod shape;
