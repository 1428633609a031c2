//! A small reverse-Polish-notation calculator: a typed value stack with
//! arithmetic, logic, random and quit operations, a whitespace tokenizer,
//! a token classifier, and a line evaluator, together with a handful of
//! verified collection utilities (list helpers, a prime sieve, a Towers of
//! Hanoi solver, and two binary search trees).

pub mod bst_generic;
pub mod bst_simple;
pub mod hanoi;
pub mod list_ops;
pub mod parser;
pub mod rpn;
pub mod sieve;
