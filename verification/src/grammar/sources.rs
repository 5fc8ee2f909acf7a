//! Where the operands of the emitted instructions come from: every operator
//! instruction takes both operands from registers that earlier instructions
//! of the same code wrote, and the result of the code is what its last
//! instruction wrote.

use vstd::prelude::*;
use crate::compiler::{Instruction, Pool, Run};
use crate::grammar::expression::ExprView;
use crate::grammar::factor::FactorView;
use crate::grammar::operator::Operator;
use crate::grammar::registers::{
    disciplined, lemma_expr_steps_disciplined, lemma_factor_disciplined, lemma_term_disciplined,
    lemma_term_steps_disciplined,
};
use crate::grammar::term::TermView;
use crate::grammar::visitor::{expr_code, expr_steps, factor_code, term_code, term_steps};

verus! {

impl Instruction {
    /// The register that the instruction writes.
    pub open spec fn target(self) -> u8 {
        match self {
            Instruction::Load { dst, value } => dst,
            Instruction::Binary { op, left, right, dst } => dst,
        }
    }
}

/// Whether one of the first `j` instructions of `code` writes register `r`.
pub open spec fn written_before(code: Seq<Instruction>, j: int, r: u8) -> bool {
    exists|i: int| 0 <= i < j && i < code.len() && (#[trigger] code[i]).target() == r
}

/// Whether every operator instruction of `code` takes both its operands from
/// registers that earlier instructions of `code` wrote.
pub open spec fn self_contained(code: Seq<Instruction>) -> bool {
    forall|j: int|
        0 <= j < code.len() ==> match #[trigger] code[j] {
            Instruction::Load { dst, value } => true,
            Instruction::Binary { op, left, right, dst } => written_before(code, j, left)
                && written_before(code, j, right),
        }
}

/// Whether `run` emitted code that feeds itself and ends in its result: the
/// code begins with a load, every operator instruction in it takes its
/// operands from registers that earlier instructions of it wrote, and the
/// register on top of the stack in use is the one that the last instruction
/// wrote, which is an operator instruction unless the code is a single load.
pub open spec fn feeds_itself(run: Run) -> bool {
    &&& run.code.len() > 0
    &&& run.code[0] is Load
    &&& self_contained(run.code)
    &&& run.pool.used.len() > 0
    &&& run.code.last().target() == run.pool.used.last()
    &&& run.code.len() > 1 ==> run.code.last() is Binary
}

/// What was written before a place in a piece of code was written before the
/// same place when other code precedes or follows it.
pub proof fn lemma_written_before_concat(a: Seq<Instruction>, b: Seq<Instruction>, j: int, r: u8)
    ensures
        written_before(a, j, r) ==> written_before(a + b, j, r),
        written_before(b, j, r) ==> written_before(a + b, a.len() + j, r),
{
    if written_before(a, j, r) {
        let i = choose|i: int| 0 <= i < j && i < a.len() && (#[trigger] a[i]).target() == r;
        assert((a + b)[i] == a[i]);
    }
    if written_before(b, j, r) {
        let i = choose|i: int| 0 <= i < j && i < b.len() && (#[trigger] b[i]).target() == r;
        assert((a + b)[a.len() + i] == b[i]);
    }
}

/// Two pieces of code that are self-contained are self-contained together.
pub proof fn lemma_self_contained_concat(a: Seq<Instruction>, b: Seq<Instruction>)
    requires
        self_contained(a),
        self_contained(b),
    ensures
        self_contained(a + b),
{
    let whole = a + b;
    assert forall|j: int| 0 <= j < whole.len() implies match #[trigger] whole[j] {
        Instruction::Load { dst, value } => true,
        Instruction::Binary { op, left, right, dst } => written_before(whole, j, left)
            && written_before(whole, j, right),
    } by {
        match whole[j] {
            Instruction::Load { dst, value } => {},
            Instruction::Binary { op, left, right, dst } => {
                if j < a.len() {
                    assert(whole[j] == a[j]);
                    lemma_written_before_concat(a, b, j, left);
                    lemma_written_before_concat(a, b, j, right);
                } else {
                    assert(whole[j] == b[j - a.len()]);
                    lemma_written_before_concat(a, b, j - a.len(), left);
                    lemma_written_before_concat(a, b, j - a.len(), right);
                }
            },
        }
    }
}

/// A link of a chain whose two operands were compiled by code that feeds
/// itself is compiled by code that feeds itself: the operator instruction
/// takes what the last instruction of each operand wrote.
pub proof fn lemma_link_feeds_itself(start: Pool, before: Run, operand: Run, op: Operator)
    requires
        before.error.is_none(),
        operand.error.is_none(),
        disciplined(start, before),
        disciplined(before.pool, operand),
        feeds_itself(before),
        feeds_itself(operand),
        operand.pool.combine(op).error.is_none(),
    ensures
        feeds_itself(before.followed_by(operand).followed_by(operand.pool.combine(op))),
{
    let last = operand.pool.combine(op);
    let front = before.code + operand.code;
    let whole = front + last.code;
    let m = operand.pool.used.len();
    let left = operand.pool.used[m - 2];
    let right = operand.pool.used[m - 1];
    assert(operand.pool.used.drop_last() == before.pool.used);
    assert(before.pool.used.last() == left);
    lemma_self_contained_concat(before.code, operand.code);
    let n = front.len() as int;
    assert(whole[0] == before.code[0]);
    assert(whole.last() == last.code[0]);
    let from_left = before.code.len() - 1;
    let from_right = n - 1;
    assert(whole[from_left] == before.code.last());
    assert(whole[from_right] == operand.code.last());
    assert(written_before(whole, n, left));
    assert(written_before(whole, n, right));
    assert forall|j: int| 0 <= j < whole.len() implies match #[trigger] whole[j] {
        Instruction::Load { dst, value } => true,
        Instruction::Binary { op, left, right, dst } => written_before(whole, j, left)
            && written_before(whole, j, right),
    } by {
        if j < n {
            assert(whole[j] == front[j]);
            match front[j] {
                Instruction::Load { dst, value } => {},
                Instruction::Binary { op, left, right, dst } => {
                    lemma_written_before_concat(front, last.code, j, left);
                    lemma_written_before_concat(front, last.code, j, right);
                },
            }
        }
    }
}

/// The code of a factor that compiled feeds itself.
pub proof fn lemma_factor_feeds_itself(f: FactorView, pool: Pool)
    requires
        factor_code(f, pool).error.is_none(),
    ensures
        feeds_itself(factor_code(f, pool)),
    decreases f, 0nat,
{
    match f {
        FactorView::Expr(e) => {
            lemma_expr_feeds_itself(*e, pool);
        },
        _ => {},
    }
}

/// The code of the first links of a term that compiled feeds itself.
pub proof fn lemma_term_steps_feed_themselves(t: TermView, k: nat, pool: Pool)
    requires
        term_steps(t, k, pool).error.is_none(),
    ensures
        feeds_itself(term_steps(t, k, pool)),
    decreases t, k,
{
    if k == 0 {
        lemma_factor_feeds_itself(t.left, pool);
    } else if k > t.rest.len() {
        lemma_term_steps_feed_themselves(t, (k - 1) as nat, pool);
    } else {
        let before = term_steps(t, (k - 1) as nat, pool);
        let operand = factor_code(t.rest[k - 1].1, before.pool);
        lemma_term_steps_feed_themselves(t, (k - 1) as nat, pool);
        lemma_term_steps_disciplined(t, (k - 1) as nat, pool);
        lemma_factor_feeds_itself(t.rest[k - 1].1, before.pool);
        lemma_factor_disciplined(t.rest[k - 1].1, before.pool);
        lemma_link_feeds_itself(pool, before, operand, t.rest[k - 1].0);
    }
}

/// The code of a term that compiled feeds itself.
pub proof fn lemma_term_feeds_itself(t: TermView, pool: Pool)
    requires
        term_code(t, pool).error.is_none(),
    ensures
        feeds_itself(term_code(t, pool)),
    decreases t, t.rest.len() + 1,
{
    lemma_term_steps_feed_themselves(t, t.rest.len(), pool);
}

/// The code of the first links of an expression that compiled feeds itself.
pub proof fn lemma_expr_steps_feed_themselves(e: ExprView, k: nat, pool: Pool)
    requires
        expr_steps(e, k, pool).error.is_none(),
    ensures
        feeds_itself(expr_steps(e, k, pool)),
    decreases e, k,
{
    if k == 0 {
        lemma_term_feeds_itself(e.left, pool);
    } else if k > e.rest.len() {
        lemma_expr_steps_feed_themselves(e, (k - 1) as nat, pool);
    } else {
        let before = expr_steps(e, (k - 1) as nat, pool);
        let operand = term_code(e.rest[k - 1].1, before.pool);
        lemma_expr_steps_feed_themselves(e, (k - 1) as nat, pool);
        lemma_expr_steps_disciplined(e, (k - 1) as nat, pool);
        lemma_term_feeds_itself(e.rest[k - 1].1, before.pool);
        lemma_term_disciplined(e.rest[k - 1].1, before.pool);
        lemma_link_feeds_itself(pool, before, operand, e.rest[k - 1].0);
    }
}

/// The code of an expression that compiled feeds itself: it begins with a
/// load, each operator instruction comes after the instructions that wrote
/// its two operands, and the last instruction writes the register that is
/// left on top of the stack in use.
pub proof fn lemma_expr_feeds_itself(e: ExprView, pool: Pool)
    requires
        expr_code(e, pool).error.is_none(),
    ensures
        feeds_itself(expr_code(e, pool)),
    decreases e, e.rest.len() + 1,
{
    lemma_expr_steps_feed_themselves(e, e.rest.len(), pool);
}

} // verus!
