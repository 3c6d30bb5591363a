//! Lexer and parser for INTJ source text.

pub mod token;
pub mod utils;
