//! Front end of a small interpreted language: a byte scanner that turns
//! source text into tokens, and a statement parser that turns tokens into
//! an abstract syntax tree.
pub mod ast;
pub mod lexer;
pub mod parser;
pub mod roundtrip;
pub mod token;
