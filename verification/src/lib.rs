//! A small expression language — a tokenizer, a recursive-descent parser and
//! an evaluator with closures — declared in `parser` and `eval` and
//! implemented under `zz_slop`, together with the conversion traits that
//! connect a declaration to its implementation (`slop`) and the decisions of
//! the attribute that generates those connections (`slop_macro`).
pub mod eval;
pub mod parser;
pub mod slop;
pub mod slop_macro;
pub mod zz_slop;
