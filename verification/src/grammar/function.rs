//! Named routines. The grammar does not produce them yet.

use vstd::prelude::*;
use crate::grammar::expression::Expr;

verus! {

/// A routine: its name, the names of its parameters and its body.
#[allow(dead_code)]
pub struct Function {
    name: String,
    args: Vec<String>,
    body: Vec<Expr>,
}

} // verus!
