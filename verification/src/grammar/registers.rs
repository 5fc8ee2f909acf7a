//! What code generation does to the registers: every register stays on one of
//! the two stacks, whatever is compiled and whether or not it fails.

use vstd::prelude::*;
use crate::compiler::{
    lemma_lowest_is_least, lemma_occurrences_push, lemma_occurrences_remove, lowest_at, Pool, Run,
};
use crate::grammar::expression::ExprView;
use crate::grammar::factor::FactorView;
use crate::grammar::operator::Operator;
use crate::grammar::term::TermView;
use crate::grammar::visitor::{
    expr_code, expr_steps, factor_code, program_steps, term_code, term_steps,
};

verus! {

/// Whether the two stacks of `after` hold the registers that the two stacks
/// of `before` hold, each as often, perhaps on the other stack or at another
/// place.
pub open spec fn same_registers(before: Pool, after: Pool) -> bool {
    &&& after.free.len() + after.used.len() == before.free.len() + before.used.len()
    &&& forall|r: u8| after.holds(r) == before.holds(r)
}

/// Stacks that hold the same registers are alike in whether a register
/// occurs twice, and in whether they hold every register of the machine.
pub proof fn lemma_same_registers_keep(before: Pool, after: Pool)
    requires
        same_registers(before, after),
    ensures
        before.distinct() ==> after.distinct(),
        before.wf() ==> after.wf(),
{
}

/// Loading a literal moves one register from the free stack to the stack in
/// use.
pub proof fn lemma_load_keeps_registers(pool: Pool, value: i64)
    ensures
        same_registers(pool, pool.load(value).pool),
{
    if pool.free.len() > 0 {
        let dst = pool.lowest();
        lemma_lowest_is_least(pool.free);
        assert forall|r: u8| pool.load(value).pool.holds(r) == pool.holds(r) by {
            lemma_occurrences_remove(pool.free, lowest_at(pool.free), r);
            lemma_occurrences_push(pool.used, dst, r);
        }
    }
}

/// Applying an operator moves one register from the free stack to the stack
/// in use and two the other way.
pub proof fn lemma_combine_keeps_registers(pool: Pool, op: Operator)
    requires
        pool.used.len() >= 2,
    ensures
        same_registers(pool, pool.combine(op).pool),
{
    if pool.free.len() > 0 {
        let dst = pool.lowest();
        lemma_lowest_is_least(pool.free);
        let m = pool.used.len();
        let right = pool.used[m - 1];
        let left = pool.used[m - 2];
        let below = pool.used.take(m - 2);
        assert(pool.used =~= below.push(left).push(right));
        assert forall|r: u8| pool.combine(op).pool.holds(r) == pool.holds(r) by {
            lemma_occurrences_push(below, left, r);
            lemma_occurrences_push(below.push(left), right, r);
            lemma_occurrences_push(below, dst, r);
            lemma_occurrences_remove(pool.free, lowest_at(pool.free), r);
            lemma_occurrences_push(pool.others(), right, r);
            lemma_occurrences_push(pool.others().push(right), left, r);
        }
    }
}

/// Whether a run from `before` kept the registers, and, if it did not fail,
/// left one more of them in use, on top of those that were in use.
pub open spec fn disciplined(before: Pool, run: Run) -> bool {
    &&& same_registers(before, run.pool)
    &&& run.error.is_none() ==> {
        &&& run.pool.used.len() == before.used.len() + 1
        &&& run.pool.used.drop_last() == before.used
        &&& run.pool.free.len() + 1 == before.free.len()
    }
}

/// A link of a chain whose operand was compiled with discipline is compiled
/// with discipline.
pub proof fn lemma_link_disciplined(
    start: Pool,
    before: Run,
    operand: Run,
    op: Operator,
)
    requires
        before.error.is_none(),
        disciplined(start, before),
        disciplined(before.pool, operand),
    ensures
        operand.error.is_some() ==> disciplined(start, before.followed_by(operand)),
        operand.error.is_none() ==> disciplined(
            start,
            before.followed_by(operand).followed_by(operand.pool.combine(op)),
        ),
{
    if operand.error.is_none() {
        let last = operand.pool.combine(op);
        lemma_combine_keeps_registers(operand.pool, op);
        if last.error.is_none() {
            let used = operand.pool.used;
            assert(used.drop_last().drop_last() == start.used);
            assert(used.take(used.len() - 2) =~= start.used);
            assert(last.pool.used.drop_last() =~= start.used);
        }
    }
}

/// A factor is compiled with discipline.
pub proof fn lemma_factor_disciplined(f: FactorView, pool: Pool)
    ensures
        disciplined(pool, factor_code(f, pool)),
    decreases f, 0nat,
{
    match f {
        FactorView::Integer(value) => {
            lemma_load_keeps_registers(pool, value);
            if pool.free.len() > 0 {
                assert(pool.load(value).pool.used.drop_last() =~= pool.used);
            }
        },
        FactorView::Float(_) => {},
        FactorView::Identifier(_) => {},
        FactorView::Expr(e) => {
            lemma_expr_disciplined(*e, pool);
        },
    }
}

/// The first links of a term are compiled with discipline.
pub proof fn lemma_term_steps_disciplined(t: TermView, k: nat, pool: Pool)
    ensures
        disciplined(pool, term_steps(t, k, pool)),
    decreases t, k,
{
    if k == 0 {
        lemma_factor_disciplined(t.left, pool);
    } else {
        lemma_term_steps_disciplined(t, (k - 1) as nat, pool);
        if k <= t.rest.len() {
            let before = term_steps(t, (k - 1) as nat, pool);
            if before.error.is_none() {
                let operand = factor_code(t.rest[k - 1].1, before.pool);
                lemma_factor_disciplined(t.rest[k - 1].1, before.pool);
                lemma_link_disciplined(pool, before, operand, t.rest[k - 1].0);
            }
        }
    }
}

/// A term is compiled with discipline.
pub proof fn lemma_term_disciplined(t: TermView, pool: Pool)
    ensures
        disciplined(pool, term_code(t, pool)),
    decreases t, t.rest.len() + 1,
{
    lemma_term_steps_disciplined(t, t.rest.len(), pool);
}

/// The first links of an expression are compiled with discipline.
pub proof fn lemma_expr_steps_disciplined(e: ExprView, k: nat, pool: Pool)
    ensures
        disciplined(pool, expr_steps(e, k, pool)),
    decreases e, k,
{
    if k == 0 {
        lemma_term_disciplined(e.left, pool);
    } else {
        lemma_expr_steps_disciplined(e, (k - 1) as nat, pool);
        if k <= e.rest.len() {
            let before = expr_steps(e, (k - 1) as nat, pool);
            if before.error.is_none() {
                let operand = term_code(e.rest[k - 1].1, before.pool);
                lemma_term_disciplined(e.rest[k - 1].1, before.pool);
                lemma_link_disciplined(pool, before, operand, e.rest[k - 1].0);
            }
        }
    }
}

/// An expression is compiled with discipline: whether or not it fails, every
/// register stays on one of the two stacks; and if it does not fail, exactly
/// one more register is in use afterwards, on top of those that were in use,
/// and one fewer is free.
pub proof fn lemma_expr_disciplined(e: ExprView, pool: Pool)
    ensures
        disciplined(pool, expr_code(e, pool)),
    decreases e, e.rest.len() + 1,
{
    lemma_expr_steps_disciplined(e, e.rest.len(), pool);
}

/// Starting with all registers free, an expression that compiles leaves one
/// register in use and thirty free, whatever its shape.
pub proof fn lemma_fresh_expr_balance(e: ExprView)
    requires
        expr_code(e, Pool::fresh()).error.is_none(),
    ensures
        expr_code(e, Pool::fresh()).pool.used.len() == 1,
        expr_code(e, Pool::fresh()).pool.free.len() == 30,
{
    lemma_expr_disciplined(e, Pool::fresh());
}

/// The first statements of a program keep the registers, and each statement
/// that compiled left one more register in use.
pub proof fn lemma_program_steps_disciplined(p: Seq<ExprView>, k: nat, pool: Pool)
    requires
        k <= p.len(),
    ensures
        same_registers(pool, program_steps(p, k, pool).pool),
        program_steps(p, k, pool).error.is_none() ==> {
            &&& program_steps(p, k, pool).pool.used.len() == pool.used.len() + k
            &&& program_steps(p, k, pool).pool.free.len() + k == pool.free.len()
        },
    decreases k,
{
    if k > 0 {
        lemma_program_steps_disciplined(p, (k - 1) as nat, pool);
        let before = program_steps(p, (k - 1) as nat, pool);
        if before.error.is_none() {
            lemma_expr_disciplined(p[k - 1], before.pool);
        }
    }
}

} // verus!
