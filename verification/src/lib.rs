//! A small compiler front end for arithmetic expressions.
//!
//! Source text is read by a recursive-descent parser into a syntax tree in
//! which precedence is a matter of structure: an expression is a chain of
//! terms joined by `+` and `-`, a term a chain of factors joined by `*` and
//! `/`, and a factor a literal, an identifier or an expression between
//! parentheses. A walk over the tree then emits three-address instructions
//! for a machine with 31 registers, of which it hands out the lowest-numbered
//! free one and which it takes back as soon as an operator has used them.
//!
//! * [`scan`] and [`number`] hold the characters and the decimal notation
//!   that the rest is built on.
//! * [`parse`] holds what every parser hands back.
//! * [`grammar`] holds the tree, the grammar and the parsers, one module for
//!   each kind of node, and what is proved of them.
//! * [`compiler`] holds the state of a compilation and the instructions.

pub mod compiler;
pub mod grammar;
pub mod number;
pub mod parse;
pub mod scan;
