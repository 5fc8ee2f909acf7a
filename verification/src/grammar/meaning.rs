//! What the emitted code computes: run on any register file, the code of an
//! expression leaves the value of the expression, grouped from the left, in
//! the register on top of the stack in use, and does not touch the registers
//! that were in use before.

use vstd::prelude::*;
use crate::compiler::{lemma_lowest_is_least, occurrences, Instruction, Pool, Run};
use crate::grammar::expression::ExprView;
use crate::grammar::factor::FactorView;
use crate::grammar::operator::Operator;
use crate::grammar::registers::{
    disciplined, lemma_expr_steps_disciplined, lemma_factor_disciplined, lemma_same_registers_keep,
    lemma_term_disciplined, lemma_term_steps_disciplined,
};
use crate::grammar::term::TermView;
use crate::grammar::visitor::{expr_code, expr_steps, factor_code, term_code, term_steps};

verus! {

/// What a register holds: a literal, or the result of an operator applied to
/// what two registers held.
pub ghost enum Value {
    Literal(i64),
    Applied(Operator, Box<Value>, Box<Value>),
}

/// What each register holds.
pub type RegisterFile = Map<u8, Value>;

/// The register file after one instruction.
pub open spec fn step(file: RegisterFile, i: Instruction) -> RegisterFile {
    match i {
        Instruction::Load { dst, value } => file.insert(dst, Value::Literal(value)),
        Instruction::Binary { op, left, right, dst } => file.insert(
            dst,
            Value::Applied(op, Box::new(file[left]), Box::new(file[right])),
        ),
    }
}

/// The register file after the instructions of `code`, in order.
pub open spec fn execute(file: RegisterFile, code: Seq<Instruction>) -> RegisterFile
    decreases code.len(),
{
    if code.len() == 0 {
        file
    } else {
        step(execute(file, code.drop_last()), code.last())
    }
}

/// The value of a factor. Only integer literals and what is built from them
/// have one that the machine can hold.
pub open spec fn factor_value(f: FactorView) -> Value
    decreases f, 0nat,
{
    match f {
        FactorView::Integer(value) => Value::Literal(value),
        FactorView::Float(_) => arbitrary(),
        FactorView::Identifier(_) => arbitrary(),
        FactorView::Expr(e) => expr_value(*e),
    }
}

/// The value of the leftmost factor of a term combined with the first `k`
/// links of its chain, from left to right: each operator is applied to all
/// that stands to its left and to its own right operand.
pub open spec fn term_value_upto(t: TermView, k: nat) -> Value
    decreases t, k,
{
    if k == 0 {
        factor_value(t.left)
    } else if k > t.rest.len() {
        term_value_upto(t, (k - 1) as nat)
    } else {
        Value::Applied(
            t.rest[k - 1].0,
            Box::new(term_value_upto(t, (k - 1) as nat)),
            Box::new(factor_value(t.rest[k - 1].1)),
        )
    }
}

/// The value of a term.
pub open spec fn term_value(t: TermView) -> Value
    decreases t, t.rest.len() + 1,
{
    term_value_upto(t, t.rest.len())
}

/// The value of the leftmost term of an expression combined with the first
/// `k` links of its chain, from left to right.
pub open spec fn expr_value_upto(e: ExprView, k: nat) -> Value
    decreases e, k,
{
    if k == 0 {
        term_value(e.left)
    } else if k > e.rest.len() {
        expr_value_upto(e, (k - 1) as nat)
    } else {
        Value::Applied(
            e.rest[k - 1].0,
            Box::new(expr_value_upto(e, (k - 1) as nat)),
            Box::new(term_value(e.rest[k - 1].1)),
        )
    }
}

/// The value of an expression.
pub open spec fn expr_value(e: ExprView) -> Value
    decreases e, e.rest.len() + 1,
{
    expr_value_upto(e, e.rest.len())
}

/// Running two pieces of code one after the other is running their
/// concatenation.
pub proof fn lemma_execute_concat(file: RegisterFile, a: Seq<Instruction>, b: Seq<Instruction>)
    ensures
        execute(file, a + b) == execute(execute(file, a), b),
    decreases b.len(),
{
    if b.len() == 0 {
        assert(a + b =~= a);
    } else {
        assert((a + b).drop_last() =~= a + b.drop_last());
        lemma_execute_concat(file, a, b.drop_last());
    }
}

/// Running one instruction is one step.
pub proof fn lemma_execute_single(file: RegisterFile, i: Instruction)
    ensures
        execute(file, seq![i]) == step(file, i),
{
    let s = seq![i];
    assert(s.drop_last() =~= Seq::<Instruction>::empty());
    assert(execute(file, s.drop_last()) == file);
}

/// A register that does not occur on a stack differs from every register on
/// it.
pub proof fn lemma_occurrences_index(stack: Seq<u8>, r: u8)
    ensures
        occurrences(stack, r) == 0 <==> forall|i: int| 0 <= i < stack.len() ==> stack[i] != r,
    decreases stack.len(),
{
    if stack.len() > 0 {
        lemma_occurrences_index(stack.drop_last(), r);
        if occurrences(stack, r) == 0 {
            assert forall|i: int| 0 <= i < stack.len() implies stack[i] != r by {
                if i < stack.len() - 1 {
                    assert(stack[i] == stack.drop_last()[i]);
                }
            }
        }
        if forall|i: int| 0 <= i < stack.len() ==> stack[i] != r {
            assert(stack[stack.len() - 1] != r);
            assert forall|i: int| 0 <= i < stack.drop_last().len() implies stack.drop_last()[i]
                != r by {
                assert(stack.drop_last()[i] == stack[i]);
            }
        }
    }
}

/// Whether `run`, started from `before`, computes `value`: executed on any
/// register file, its code leaves `value` in the register on top of the stack
/// in use and leaves the registers that were in use as they were.
pub open spec fn computes(before: Pool, run: Run, value: Value) -> bool {
    forall|file: RegisterFile|
        {
            let after = #[trigger] execute(file, run.code);
            &&& after[run.pool.used.last()] == value
            &&& forall|i: int| 0 <= i < before.used.len() ==> after[before.used[i]] == file[before.used[i]]
        }
}

/// A link of a chain computes the operator applied to what stood to its left
/// and to its right operand.
pub proof fn lemma_link_computes(
    start: Pool,
    before: Run,
    operand: Run,
    op: Operator,
    left_value: Value,
    right_value: Value,
)
    requires
        start.distinct(),
        before.error.is_none(),
        operand.error.is_none(),
        disciplined(start, before),
        disciplined(before.pool, operand),
        computes(start, before, left_value),
        computes(before.pool, operand, right_value),
        operand.pool.combine(op).error.is_none(),
    ensures
        computes(
            start,
            before.followed_by(operand).followed_by(operand.pool.combine(op)),
            Value::Applied(op, Box::new(left_value), Box::new(right_value)),
        ),
{
    let last = operand.pool.combine(op);
    let whole = before.followed_by(operand).followed_by(last);
    let value = Value::Applied(op, Box::new(left_value), Box::new(right_value));
    let pool = operand.pool;
    let m = pool.used.len();
    let dst = pool.lowest();
    lemma_lowest_is_least(pool.free);
    let left = pool.used[m - 2];
    let right = pool.used[m - 1];
    lemma_same_registers_keep(start, before.pool);
    lemma_same_registers_keep(before.pool, pool);
    lemma_occurrences_index(pool.free, dst);
    lemma_occurrences_index(pool.used, dst);
    assert(pool.holds(dst) <= 1);
    assert(pool.used.drop_last() == before.pool.used);
    assert(before.pool.used.drop_last() == start.used);
    assert(before.pool.used.last() == left);
    assert(last.code =~= seq![last.code[0]]);
    assert forall|file: RegisterFile|
        {
            let after = #[trigger] execute(file, whole.code);
            &&& after[whole.pool.used.last()] == value
            &&& forall|i: int| 0 <= i < start.used.len() ==> after[start.used[i]] == file[start.used[i]]
        } by {
        let first = execute(file, before.code);
        let second = execute(first, operand.code);
        lemma_execute_concat(file, before.code, operand.code);
        lemma_execute_concat(file, before.code + operand.code, last.code);
        lemma_execute_single(second, last.code[0]);
        let after = execute(file, whole.code);
        assert(after == step(second, last.code[0]));
        assert(first[left] == left_value);
        assert(second[right] == right_value);
        assert(second[before.pool.used[m - 2]] == first[before.pool.used[m - 2]]);
        assert forall|i: int| 0 <= i < start.used.len() implies after[start.used[i]]
            == file[start.used[i]] by {
            assert(start.used[i] == before.pool.used[i]);
            assert(start.used[i] == pool.used[i]);
            assert(second[before.pool.used[i]] == first[before.pool.used[i]]);
        }
    }
}

/// The code of a factor that compiled computes the factor's value.
pub proof fn lemma_factor_computes(f: FactorView, pool: Pool)
    requires
        pool.distinct(),
        factor_code(f, pool).error.is_none(),
    ensures
        computes(pool, factor_code(f, pool), factor_value(f)),
    decreases f, 0nat,
{
    match f {
        FactorView::Integer(value) => {
            let run = pool.load(value);
            let dst = pool.lowest();
            lemma_lowest_is_least(pool.free);
            lemma_occurrences_index(pool.free, dst);
            lemma_occurrences_index(pool.used, dst);
            assert(pool.holds(dst) <= 1);
            assert(run.code =~= seq![run.code[0]]);
            assert forall|file: RegisterFile|
                {
                    let after = #[trigger] execute(file, run.code);
                    &&& after[run.pool.used.last()] == factor_value(f)
                    &&& forall|i: int| 0 <= i < pool.used.len() ==> after[pool.used[i]] == file[pool.used[i]]
                } by {
                lemma_execute_single(file, run.code[0]);
            }
        },
        FactorView::Float(_) => {},
        FactorView::Identifier(_) => {},
        FactorView::Expr(e) => {
            lemma_expr_computes(*e, pool);
        },
    }
}

/// The code of the first links of a term that compiled computes their value.
pub proof fn lemma_term_steps_compute(t: TermView, k: nat, pool: Pool)
    requires
        pool.distinct(),
        term_steps(t, k, pool).error.is_none(),
    ensures
        computes(pool, term_steps(t, k, pool), term_value_upto(t, k)),
    decreases t, k,
{
    if k == 0 {
        lemma_factor_computes(t.left, pool);
    } else if k > t.rest.len() {
        lemma_term_steps_compute(t, (k - 1) as nat, pool);
    } else {
        let before = term_steps(t, (k - 1) as nat, pool);
        let operand = factor_code(t.rest[k - 1].1, before.pool);
        lemma_term_steps_compute(t, (k - 1) as nat, pool);
        lemma_term_steps_disciplined(t, (k - 1) as nat, pool);
        lemma_same_registers_keep(pool, before.pool);
        lemma_factor_computes(t.rest[k - 1].1, before.pool);
        lemma_factor_disciplined(t.rest[k - 1].1, before.pool);
        lemma_link_computes(
            pool,
            before,
            operand,
            t.rest[k - 1].0,
            term_value_upto(t, (k - 1) as nat),
            factor_value(t.rest[k - 1].1),
        );
    }
}

/// The code of a term that compiled computes the term's value.
pub proof fn lemma_term_computes(t: TermView, pool: Pool)
    requires
        pool.distinct(),
        term_code(t, pool).error.is_none(),
    ensures
        computes(pool, term_code(t, pool), term_value(t)),
    decreases t, t.rest.len() + 1,
{
    lemma_term_steps_compute(t, t.rest.len(), pool);
}

/// The code of the first links of an expression that compiled computes their
/// value.
pub proof fn lemma_expr_steps_compute(e: ExprView, k: nat, pool: Pool)
    requires
        pool.distinct(),
        expr_steps(e, k, pool).error.is_none(),
    ensures
        computes(pool, expr_steps(e, k, pool), expr_value_upto(e, k)),
    decreases e, k,
{
    if k == 0 {
        lemma_term_computes(e.left, pool);
    } else if k > e.rest.len() {
        lemma_expr_steps_compute(e, (k - 1) as nat, pool);
    } else {
        let before = expr_steps(e, (k - 1) as nat, pool);
        let operand = term_code(e.rest[k - 1].1, before.pool);
        lemma_expr_steps_compute(e, (k - 1) as nat, pool);
        lemma_expr_steps_disciplined(e, (k - 1) as nat, pool);
        lemma_same_registers_keep(pool, before.pool);
        lemma_term_computes(e.rest[k - 1].1, before.pool);
        lemma_term_disciplined(e.rest[k - 1].1, before.pool);
        lemma_link_computes(
            pool,
            before,
            operand,
            e.rest[k - 1].0,
            expr_value_upto(e, (k - 1) as nat),
            term_value(e.rest[k - 1].1),
        );
    }
}

/// The code of an expression that compiled, from stacks on which no register
/// occurs twice, computes the expression's value: each operator applied to
/// all that stands to its left in its chain and to its own right operand,
/// with the operands in this order. The registers that were in use keep what
/// they held.
pub proof fn lemma_expr_computes(e: ExprView, pool: Pool)
    requires
        pool.distinct(),
        expr_code(e, pool).error.is_none(),
    ensures
        computes(pool, expr_code(e, pool), expr_value(e)),
    decreases e, e.rest.len() + 1,
{
    lemma_expr_steps_compute(e, e.rest.len(), pool);
}

} // verus!
