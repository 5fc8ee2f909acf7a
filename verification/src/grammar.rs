//! The syntax tree of the language, one module for each kind of node, with
//! the grammar that the parsers follow and the code that the nodes compile
//! to.
//!
//! * [`operator`], [`factor`], [`term`], [`expression`] and [`program`] hold
//!   the nodes, their parsers and their code generation; [`function`] holds
//!   a node that the grammar does not produce yet.
//! * [`syntax`] states the grammar and [`visitor`] states what compiling a
//!   node does.
//! * [`shape`], [`parentheses`] and [`notation`] say which trees the grammar
//!   yields, what parentheses around an expression read as, and what reads
//!   back as written.
//! * [`registers`], [`order`], [`sources`], [`demand`] and [`meaning`] say
//!   how the emitted code treats the registers, how it is ordered, where
//!   each operand comes from, when compilation succeeds and what the code
//!   computes.

pub mod demand;
pub mod expression;
pub mod factor;
pub mod function;
pub mod meaning;
pub mod notation;
pub mod operator;
pub mod order;
pub mod parentheses;
pub mod program;
pub mod registers;
pub mod shape;
pub mod sources;
pub mod syntax;
pub mod term;
pub mod visitor;
