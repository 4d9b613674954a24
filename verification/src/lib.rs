//! A minimal interpreter for a Lisp-like S-expression language.
//!
//! One textual program is tokenized into a flat sequence of token strings,
//! read into a tree of tagged values, and reduced by a tree-walking
//! evaluator to a single value. Numbers are IEEE binary64 values, carried
//! everywhere as their bit patterns; the arithmetic itself is done by the
//! `rustc_apfloat` crate behind the trusted wrappers in `num`.

pub mod eval;
pub mod laws;
pub mod num;
pub mod reader;
pub mod render;
pub mod text;
pub mod token;
pub mod value;
