//! Code generation as a walk over the syntax tree.

use vstd::prelude::*;
use crate::compiler::{listing, Compiler, CompileError, Instruction, Pool, Run};
use crate::grammar::expression::ExprView;
use crate::grammar::factor::FactorView;
use crate::grammar::term::TermView;

verus! {

/// A node of the syntax tree that can be compiled.
pub trait Visitor<'a>: Sized {
    /// What compiling the node does, starting from the register stacks `pool`.
    spec fn code(&self, pool: Pool) -> Run;

    /// Whether the stacks hold what the node needs to find on them.
    spec fn operands_ready(&self, pool: Pool) -> bool;

    /// Visits the node and the nodes below it and emits their instructions.
    /// It stops at the first step that fails and reports that step's error.
    fn compile_token(&self, compiler: &mut Compiler) -> (r: Result<(), CompileError>)
        requires
            self.operands_ready(old(compiler).pool()),
        ensures
            old(compiler).advances_to(final(compiler), self.code(old(compiler).pool())),
            r == self.code(old(compiler).pool()).reported(),
    ;
}

impl Run {
    /// A step that changes nothing and fails with `error`.
    pub open spec fn failed(pool: Pool, error: CompileError) -> Run {
        Run { pool, code: Seq::empty(), error: Some(error) }
    }

    /// The step `self` followed by the step `next`, which started from the
    /// stacks that `self` left.
    pub open spec fn followed_by(self, next: Run) -> Run {
        Run { pool: next.pool, code: self.code + next.code, error: next.error }
    }
}

/// What compiling a factor does. An integer literal is loaded into a fresh
/// register; a parenthesized expression is compiled as the expression it
/// holds; any other factor has no instruction and fails.
pub open spec fn factor_code(f: FactorView, pool: Pool) -> Run
    decreases f, 0nat,
{
    match f {
        FactorView::Integer(value) => pool.load(value),
        FactorView::Float(_) => Run::failed(pool, CompileError::UnsupportedOperand),
        FactorView::Identifier(_) => Run::failed(pool, CompileError::UnsupportedOperand),
        FactorView::Expr(e) => expr_code(*e, pool),
    }
}

/// What compiling the leftmost factor of a term and the first `k` links of
/// its chain does. Each link compiles its right operand and then applies its
/// operator; the first step that fails ends the run.
pub open spec fn term_steps(t: TermView, k: nat, pool: Pool) -> Run
    decreases t, k,
{
    if k == 0 {
        factor_code(t.left, pool)
    } else if k > t.rest.len() {
        term_steps(t, (k - 1) as nat, pool)
    } else {
        let before = term_steps(t, (k - 1) as nat, pool);
        if before.error.is_some() {
            before
        } else {
            let operand = factor_code(t.rest[k - 1].1, before.pool);
            if operand.error.is_some() {
                before.followed_by(operand)
            } else {
                before.followed_by(operand).followed_by(operand.pool.combine(t.rest[k - 1].0))
            }
        }
    }
}

/// What compiling a term does: all the steps of its chain.
pub open spec fn term_code(t: TermView, pool: Pool) -> Run
    decreases t, t.rest.len() + 1,
{
    term_steps(t, t.rest.len(), pool)
}

/// What compiling the leftmost term of an expression and the first `k` links
/// of its chain does.
pub open spec fn expr_steps(e: ExprView, k: nat, pool: Pool) -> Run
    decreases e, k,
{
    if k == 0 {
        term_code(e.left, pool)
    } else if k > e.rest.len() {
        expr_steps(e, (k - 1) as nat, pool)
    } else {
        let before = expr_steps(e, (k - 1) as nat, pool);
        if before.error.is_some() {
            before
        } else {
            let operand = term_code(e.rest[k - 1].1, before.pool);
            if operand.error.is_some() {
                before.followed_by(operand)
            } else {
                before.followed_by(operand).followed_by(operand.pool.combine(e.rest[k - 1].0))
            }
        }
    }
}

/// What compiling an expression does: all the steps of its chain.
pub open spec fn expr_code(e: ExprView, pool: Pool) -> Run
    decreases e, e.rest.len() + 1,
{
    expr_steps(e, e.rest.len(), pool)
}

/// The lines of two pieces of code, one after the other, behind `lines`.
pub proof fn lemma_listing_concat(lines: Seq<Seq<char>>, a: Seq<Instruction>, b: Seq<Instruction>)
    ensures
        listing(a + b) == listing(a) + listing(b),
        (lines + listing(a)) + listing(b) == lines + listing(a + b),
{
    assert(listing(a + b) =~= listing(a) + listing(b));
    assert((lines + listing(a)) + listing(b) =~= lines + listing(a + b));
}

/// Once a link of a term's chain has failed, the later links do nothing.
pub proof fn lemma_steps_stay_failed_term(t: TermView, k: nat, n: nat, pool: Pool)
    requires
        k <= n,
        term_steps(t, k, pool).error.is_some(),
    ensures
        term_steps(t, n, pool) == term_steps(t, k, pool),
    decreases n,
{
    if k < n {
        lemma_steps_stay_failed_term(t, k, (n - 1) as nat, pool);
    }
}

/// Once a link of an expression's chain has failed, the later links do
/// nothing.
pub proof fn lemma_steps_stay_failed_expr(e: ExprView, k: nat, n: nat, pool: Pool)
    requires
        k <= n,
        expr_steps(e, k, pool).error.is_some(),
    ensures
        expr_steps(e, n, pool) == expr_steps(e, k, pool),
    decreases n,
{
    if k < n {
        lemma_steps_stay_failed_expr(e, k, (n - 1) as nat, pool);
    }
}

impl Run {
    /// A step that does nothing.
    pub open spec fn idle(pool: Pool) -> Run {
        Run { pool, code: Seq::empty(), error: None }
    }
}

/// What compiling the first `k` statements of a program does. The statements
/// are compiled in order, each from the stacks that the one before it left;
/// the first that fails ends the run.
pub open spec fn program_steps(p: Seq<ExprView>, k: nat, pool: Pool) -> Run
    decreases k,
{
    if k == 0 {
        Run::idle(pool)
    } else if k > p.len() {
        program_steps(p, (k - 1) as nat, pool)
    } else {
        let before = program_steps(p, (k - 1) as nat, pool);
        if before.error.is_some() {
            before
        } else {
            before.followed_by(expr_code(p[k - 1], before.pool))
        }
    }
}

/// What compiling a program does: all its statements.
pub open spec fn program_code(p: Seq<ExprView>, pool: Pool) -> Run {
    program_steps(p, p.len(), pool)
}

/// Once a statement has failed, the later statements do nothing.
pub proof fn lemma_steps_stay_failed_program(p: Seq<ExprView>, k: nat, n: nat, pool: Pool)
    requires
        k <= n,
        program_steps(p, k, pool).error.is_some(),
    ensures
        program_steps(p, n, pool) == program_steps(p, k, pool),
    decreases n,
{
    if k < n {
        lemma_steps_stay_failed_program(p, k, (n - 1) as nat, pool);
    }
}

} // verus!
