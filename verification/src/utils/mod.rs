//! Helpers that do not depend on the parser.

pub mod string;
pub mod text;
pub mod wrap;
