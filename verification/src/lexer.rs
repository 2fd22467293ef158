//! Lexical analysis: the token vocabulary, the scanning rules as a
//! mathematical model, and the executable lexer proved against that model.

pub mod ascii;
pub mod concat;
pub mod lexer;
pub mod scan;
pub mod spacing;
pub mod stream;
