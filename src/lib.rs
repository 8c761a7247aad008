//! Front end of a translator from a small numeric-programming language to
//! Rust: a span-tracking tokenizer, and an emitter that walks a parse tree.

pub mod error;
pub mod lexer;
pub mod parser;
