//! Source positions, expressions and the parser that produces them.

pub mod charset;
pub mod expr;
pub mod file;
pub mod frame;
pub mod grammar;
pub mod nesting;
pub mod parser;
