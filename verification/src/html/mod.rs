//! The HTML sub-parser: a byte-level tokenizer and a stack-based tree builder.

pub mod dom;
pub mod lexer;
pub mod parser;
pub mod sound;
pub mod nesting;
pub mod rebase;
