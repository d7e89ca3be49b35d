//! From source text to resolved statements.

pub mod lexer;
pub mod parser;
pub mod resolver;
