//! Front end of the Powder bootstrap compiler: a tokenizer and a
//! recursive-descent parser, with machine-checked contracts.

pub mod ast;
pub mod error;
pub mod grammar;
pub mod lexer;
pub mod parser;
pub mod readback;
pub mod relex;
pub mod shape;
pub mod spans;
pub mod text;
pub mod written;
