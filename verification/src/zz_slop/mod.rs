//! The implementations behind the public declarations.
pub mod eval;
pub mod parser;
pub mod text;
