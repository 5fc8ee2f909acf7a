//! When compilation succeeds: exactly when every leaf has an instruction and
//! the free stack is as deep as the expression demands.

use vstd::prelude::*;
use crate::compiler::{CompileError, Pool, Run};
use crate::grammar::expression::ExprView;
use crate::grammar::factor::FactorView;
use crate::grammar::registers::{
    lemma_expr_steps_disciplined, lemma_factor_disciplined, lemma_term_disciplined,
    lemma_term_steps_disciplined,
};
use crate::grammar::term::TermView;
use crate::grammar::visitor::{expr_code, expr_steps, factor_code, term_code, term_steps};

verus! {

/// The larger of two numbers.
pub open spec fn larger(a: nat, b: nat) -> nat {
    if a >= b {
        a
    } else {
        b
    }
}

/// Whether every leaf of the factor is an integer literal.
pub open spec fn factor_supported(f: FactorView) -> bool
    decreases f, 0nat,
{
    match f {
        FactorView::Integer(_) => true,
        FactorView::Float(_) => false,
        FactorView::Identifier(_) => false,
        FactorView::Expr(e) => expr_supported(*e),
    }
}

/// Whether every leaf in the leftmost factor of a term and in the first `k`
/// links of its chain is an integer literal.
pub open spec fn term_supported_upto(t: TermView, k: nat) -> bool
    decreases t, k,
{
    if k == 0 {
        factor_supported(t.left)
    } else if k > t.rest.len() {
        term_supported_upto(t, (k - 1) as nat)
    } else {
        term_supported_upto(t, (k - 1) as nat) && factor_supported(t.rest[k - 1].1)
    }
}

/// Whether every leaf of the term is an integer literal.
pub open spec fn term_supported(t: TermView) -> bool
    decreases t, t.rest.len() + 1,
{
    term_supported_upto(t, t.rest.len())
}

/// Whether every leaf in the leftmost term of an expression and in the first
/// `k` links of its chain is an integer literal.
pub open spec fn expr_supported_upto(e: ExprView, k: nat) -> bool
    decreases e, k,
{
    if k == 0 {
        term_supported(e.left)
    } else if k > e.rest.len() {
        expr_supported_upto(e, (k - 1) as nat)
    } else {
        expr_supported_upto(e, (k - 1) as nat) && term_supported(e.rest[k - 1].1)
    }
}

/// Whether every leaf of the expression is an integer literal.
pub open spec fn expr_supported(e: ExprView) -> bool
    decreases e, e.rest.len() + 1,
{
    expr_supported_upto(e, e.rest.len())
}

/// How many free registers compiling the factor takes at most at one time.
pub open spec fn factor_demand(f: FactorView) -> nat
    decreases f, 0nat,
{
    match f {
        FactorView::Integer(_) => 1,
        FactorView::Float(_) => 0,
        FactorView::Identifier(_) => 0,
        FactorView::Expr(e) => expr_demand(*e),
    }
}

/// How many free registers the leftmost factor of a term and the first `k`
/// links of its chain take. A link takes one register more than its right
/// operand, because the value to its left is held meanwhile, and never fewer
/// than three: two operands and a result.
pub open spec fn term_demand_upto(t: TermView, k: nat) -> nat
    decreases t, k,
{
    if k == 0 {
        factor_demand(t.left)
    } else if k > t.rest.len() {
        term_demand_upto(t, (k - 1) as nat)
    } else {
        larger(
            term_demand_upto(t, (k - 1) as nat),
            larger(factor_demand(t.rest[k - 1].1) + 1, 3),
        )
    }
}

/// How many free registers compiling the term takes at most at one time.
pub open spec fn term_demand(t: TermView) -> nat
    decreases t, t.rest.len() + 1,
{
    term_demand_upto(t, t.rest.len())
}

/// How many free registers the leftmost term of an expression and the first
/// `k` links of its chain take.
pub open spec fn expr_demand_upto(e: ExprView, k: nat) -> nat
    decreases e, k,
{
    if k == 0 {
        term_demand(e.left)
    } else if k > e.rest.len() {
        expr_demand_upto(e, (k - 1) as nat)
    } else {
        larger(
            expr_demand_upto(e, (k - 1) as nat),
            larger(term_demand(e.rest[k - 1].1) + 1, 3),
        )
    }
}

/// How many free registers compiling the expression takes at most at one
/// time.
pub open spec fn expr_demand(e: ExprView) -> nat
    decreases e, e.rest.len() + 1,
{
    expr_demand_upto(e, e.rest.len())
}

/// Whether `run`, started with `free` free registers, ended as a tree does
/// whose leaves are all integer literals exactly if `supported` and which
/// demands `demand` registers: it succeeds exactly when the leaves are
/// integer literals and the free registers are as many as demanded; it
/// reports an unsupported operand only when there is one, and an exhausted
/// pool only when the free registers are fewer than demanded.
pub open spec fn ends_as_owed(run: Run, free: nat, supported: bool, demand: nat) -> bool {
    &&& run.error.is_none() <==> supported && demand <= free
    &&& run.error == Some(CompileError::UnsupportedOperand) ==> !supported
    &&& run.error == Some(CompileError::RegisterPoolExhausted) ==> demand > free
}

/// A factor ends as owed.
pub proof fn lemma_factor_ends_as_owed(f: FactorView, pool: Pool)
    ensures
        ends_as_owed(factor_code(f, pool), pool.free.len(), factor_supported(f), factor_demand(f)),
    decreases f, 0nat,
{
    match f {
        FactorView::Expr(e) => {
            lemma_expr_ends_as_owed(*e, pool);
        },
        _ => {},
    }
}

/// The first links of a term end as owed.
pub proof fn lemma_term_steps_end_as_owed(t: TermView, k: nat, pool: Pool)
    ensures
        ends_as_owed(
            term_steps(t, k, pool),
            pool.free.len(),
            term_supported_upto(t, k),
            term_demand_upto(t, k),
        ),
    decreases t, k,
{
    if k == 0 {
        lemma_factor_ends_as_owed(t.left, pool);
    } else {
        lemma_term_steps_end_as_owed(t, (k - 1) as nat, pool);
        if k <= t.rest.len() {
            let before = term_steps(t, (k - 1) as nat, pool);
            lemma_term_steps_disciplined(t, (k - 1) as nat, pool);
            if before.error.is_none() {
                lemma_factor_ends_as_owed(t.rest[k - 1].1, before.pool);
                lemma_factor_disciplined(t.rest[k - 1].1, before.pool);
            }
        }
    }
}

/// A term ends as owed.
pub proof fn lemma_term_ends_as_owed(t: TermView, pool: Pool)
    ensures
        ends_as_owed(term_code(t, pool), pool.free.len(), term_supported(t), term_demand(t)),
    decreases t, t.rest.len() + 1,
{
    lemma_term_steps_end_as_owed(t, t.rest.len(), pool);
}

/// The first links of an expression end as owed.
pub proof fn lemma_expr_steps_end_as_owed(e: ExprView, k: nat, pool: Pool)
    ensures
        ends_as_owed(
            expr_steps(e, k, pool),
            pool.free.len(),
            expr_supported_upto(e, k),
            expr_demand_upto(e, k),
        ),
    decreases e, k,
{
    if k == 0 {
        lemma_term_ends_as_owed(e.left, pool);
    } else {
        lemma_expr_steps_end_as_owed(e, (k - 1) as nat, pool);
        if k <= e.rest.len() {
            let before = expr_steps(e, (k - 1) as nat, pool);
            lemma_expr_steps_disciplined(e, (k - 1) as nat, pool);
            if before.error.is_none() {
                lemma_term_ends_as_owed(e.rest[k - 1].1, before.pool);
                lemma_term_disciplined(e.rest[k - 1].1, before.pool);
            }
        }
    }
}

/// Compiling an expression succeeds exactly when all its leaves are integer
/// literals and the free stack holds as many registers as the expression
/// demands. It reports an unsupported operand only when a leaf is not an
/// integer literal, and an exhausted pool only when the free stack holds
/// fewer registers than the expression demands.
pub proof fn lemma_expr_ends_as_owed(e: ExprView, pool: Pool)
    ensures
        ends_as_owed(expr_code(e, pool), pool.free.len(), expr_supported(e), expr_demand(e)),
    decreases e, e.rest.len() + 1,
{
    lemma_expr_steps_end_as_owed(e, e.rest.len(), pool);
}

} // verus!
