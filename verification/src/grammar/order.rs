//! The order and the number of the emitted instructions: the code of an
//! expression is its postfix form, one load for each literal and one
//! operator instruction for each operator.

use vstd::prelude::*;
use crate::compiler::{Instruction, Pool};
use crate::grammar::expression::ExprView;
use crate::grammar::factor::FactorView;
use crate::grammar::operator::Operator;
use crate::grammar::term::TermView;
use crate::grammar::visitor::{expr_code, expr_steps, factor_code, term_code, term_steps};

verus! {

/// An instruction without its registers.
pub ghost enum Token {
    /// A literal is loaded.
    Literal(i64),
    /// An operator is applied.
    Apply(Operator),
}

impl Instruction {
    /// The instruction without its registers.
    pub open spec fn token(self) -> Token {
        match self {
            Instruction::Load { dst, value } => Token::Literal(value),
            Instruction::Binary { op, left, right, dst } => Token::Apply(op),
        }
    }
}

/// A piece of code without its registers.
pub open spec fn tokens(code: Seq<Instruction>) -> Seq<Token> {
    Seq::new(code.len(), |i: int| code[i].token())
}

/// Number of load instructions in `code`.
pub open spec fn count_loads(code: Seq<Instruction>) -> nat
    decreases code.len(),
{
    if code.len() == 0 {
        0
    } else {
        count_loads(code.drop_last()) + if code.last() is Load {
            1nat
        } else {
            0nat
        }
    }
}

/// Number of operator instructions in `code`.
pub open spec fn count_binaries(code: Seq<Instruction>) -> nat
    decreases code.len(),
{
    if code.len() == 0 {
        0
    } else {
        count_binaries(code.drop_last()) + if code.last() is Binary {
            1nat
        } else {
            0nat
        }
    }
}

/// The postfix form of a factor: a literal stands for itself, a
/// parenthesized expression for its own postfix form. A factor that has no
/// instruction contributes nothing.
pub open spec fn factor_postfix(f: FactorView) -> Seq<Token>
    decreases f, 0nat,
{
    match f {
        FactorView::Integer(value) => seq![Token::Literal(value)],
        FactorView::Float(_) => Seq::empty(),
        FactorView::Identifier(_) => Seq::empty(),
        FactorView::Expr(e) => expr_postfix(*e),
    }
}

/// The postfix form of the leftmost factor of a term and the first `k` links
/// of its chain: each link adds its operand and then its operator.
pub open spec fn term_postfix_upto(t: TermView, k: nat) -> Seq<Token>
    decreases t, k,
{
    if k == 0 {
        factor_postfix(t.left)
    } else if k > t.rest.len() {
        term_postfix_upto(t, (k - 1) as nat)
    } else {
        term_postfix_upto(t, (k - 1) as nat) + factor_postfix(t.rest[k - 1].1) + seq![
            Token::Apply(t.rest[k - 1].0),
        ]
    }
}

/// The postfix form of a term.
pub open spec fn term_postfix(t: TermView) -> Seq<Token>
    decreases t, t.rest.len() + 1,
{
    term_postfix_upto(t, t.rest.len())
}

/// The postfix form of the leftmost term of an expression and the first `k`
/// links of its chain.
pub open spec fn expr_postfix_upto(e: ExprView, k: nat) -> Seq<Token>
    decreases e, k,
{
    if k == 0 {
        term_postfix(e.left)
    } else if k > e.rest.len() {
        expr_postfix_upto(e, (k - 1) as nat)
    } else {
        expr_postfix_upto(e, (k - 1) as nat) + term_postfix(e.rest[k - 1].1) + seq![
            Token::Apply(e.rest[k - 1].0),
        ]
    }
}

/// The postfix form of an expression.
pub open spec fn expr_postfix(e: ExprView) -> Seq<Token>
    decreases e, e.rest.len() + 1,
{
    expr_postfix_upto(e, e.rest.len())
}

/// Number of literals and names at the leaves of a factor.
pub open spec fn factor_leaves(f: FactorView) -> nat
    decreases f, 0nat,
{
    match f {
        FactorView::Expr(e) => expr_leaves(*e),
        _ => 1,
    }
}

/// Number of leaves in the leftmost factor of a term and the first `k` links
/// of its chain.
pub open spec fn term_leaves_upto(t: TermView, k: nat) -> nat
    decreases t, k,
{
    if k == 0 {
        factor_leaves(t.left)
    } else if k > t.rest.len() {
        term_leaves_upto(t, (k - 1) as nat)
    } else {
        term_leaves_upto(t, (k - 1) as nat) + factor_leaves(t.rest[k - 1].1)
    }
}

/// Number of leaves of a term.
pub open spec fn term_leaves(t: TermView) -> nat
    decreases t, t.rest.len() + 1,
{
    term_leaves_upto(t, t.rest.len())
}

/// Number of leaves in the leftmost term of an expression and the first `k`
/// links of its chain.
pub open spec fn expr_leaves_upto(e: ExprView, k: nat) -> nat
    decreases e, k,
{
    if k == 0 {
        term_leaves(e.left)
    } else if k > e.rest.len() {
        expr_leaves_upto(e, (k - 1) as nat)
    } else {
        expr_leaves_upto(e, (k - 1) as nat) + term_leaves(e.rest[k - 1].1)
    }
}

/// Number of leaves of an expression.
pub open spec fn expr_leaves(e: ExprView) -> nat
    decreases e, e.rest.len() + 1,
{
    expr_leaves_upto(e, e.rest.len())
}

/// The loads and the operator instructions of two pieces of code add up.
pub proof fn lemma_counts_concat(a: Seq<Instruction>, b: Seq<Instruction>)
    ensures
        count_loads(a + b) == count_loads(a) + count_loads(b),
        count_binaries(a + b) == count_binaries(a) + count_binaries(b),
        tokens(a + b) == tokens(a) + tokens(b),
    decreases b.len(),
{
    assert(tokens(a + b) =~= tokens(a) + tokens(b));
    if b.len() == 0 {
        assert(a + b =~= a);
    } else {
        assert((a + b).drop_last() =~= a + b.drop_last());
        lemma_counts_concat(a, b.drop_last());
    }
}

/// What holds of code that compiled a tree with `leaves` leaves and the
/// postfix form `postfix`: it is that postfix form with registers filled in,
/// and it has one load for each leaf and one operator instruction fewer.
pub open spec fn in_postfix_order(code: Seq<Instruction>, postfix: Seq<Token>, leaves: nat) -> bool {
    &&& tokens(code) == postfix
    &&& count_loads(code) == leaves
    &&& count_binaries(code) + 1 == leaves
    &&& code.len() + 1 == 2 * leaves
}

/// One instruction counts as one load or as one operator instruction.
pub proof fn lemma_counts_single(i: Instruction)
    ensures
        count_loads(seq![i]) == if i is Load { 1nat } else { 0nat },
        count_binaries(seq![i]) == if i is Binary { 1nat } else { 0nat },
{
    let s = seq![i];
    assert(s.drop_last() =~= Seq::<Instruction>::empty());
    assert(count_loads(s.drop_last()) == 0);
    assert(count_binaries(s.drop_last()) == 0);
}

/// A link that did not fail keeps the code in postfix order.
pub proof fn lemma_link_in_order(
    before: Seq<Instruction>,
    operand: Seq<Instruction>,
    pool: Pool,
    op: Operator,
    postfix_before: Seq<Token>,
    postfix_operand: Seq<Token>,
    leaves_before: nat,
    leaves_operand: nat,
)
    requires
        in_postfix_order(before, postfix_before, leaves_before),
        in_postfix_order(operand, postfix_operand, leaves_operand),
        pool.combine(op).error.is_none(),
    ensures
        in_postfix_order(
            before + operand + pool.combine(op).code,
            postfix_before + postfix_operand + seq![Token::Apply(op)],
            leaves_before + leaves_operand,
        ),
{
    let last = pool.combine(op).code;
    lemma_counts_concat(before, operand);
    lemma_counts_concat(before + operand, last);
    lemma_counts_single(last[0]);
    assert(last =~= seq![last[0]]);
    assert(tokens(last) =~= seq![Token::Apply(op)]);
}

/// The code of a factor that compiled is in postfix order.
pub proof fn lemma_factor_in_order(f: FactorView, pool: Pool)
    requires
        factor_code(f, pool).error.is_none(),
    ensures
        in_postfix_order(factor_code(f, pool).code, factor_postfix(f), factor_leaves(f)),
    decreases f, 0nat,
{
    match f {
        FactorView::Integer(value) => {
            let code = pool.load(value).code;
            lemma_counts_single(code[0]);
            assert(code =~= seq![code[0]]);
            assert(tokens(code) =~= seq![Token::Literal(value)]);
        },
        FactorView::Float(_) => {},
        FactorView::Identifier(_) => {},
        FactorView::Expr(e) => {
            lemma_expr_in_order(*e, pool);
        },
    }
}

/// The code of the first links of a term that compiled is in postfix order.
pub proof fn lemma_term_steps_in_order(t: TermView, k: nat, pool: Pool)
    requires
        term_steps(t, k, pool).error.is_none(),
    ensures
        in_postfix_order(term_steps(t, k, pool).code, term_postfix_upto(t, k), term_leaves_upto(t, k)),
    decreases t, k,
{
    if k == 0 {
        lemma_factor_in_order(t.left, pool);
    } else if k > t.rest.len() {
        lemma_term_steps_in_order(t, (k - 1) as nat, pool);
    } else {
        let before = term_steps(t, (k - 1) as nat, pool);
        lemma_term_steps_in_order(t, (k - 1) as nat, pool);
        let operand = factor_code(t.rest[k - 1].1, before.pool);
        lemma_factor_in_order(t.rest[k - 1].1, before.pool);
        lemma_link_in_order(
            before.code,
            operand.code,
            operand.pool,
            t.rest[k - 1].0,
            term_postfix_upto(t, (k - 1) as nat),
            factor_postfix(t.rest[k - 1].1),
            term_leaves_upto(t, (k - 1) as nat),
            factor_leaves(t.rest[k - 1].1),
        );
    }
}

/// The code of a term that compiled is in postfix order.
pub proof fn lemma_term_in_order(t: TermView, pool: Pool)
    requires
        term_code(t, pool).error.is_none(),
    ensures
        in_postfix_order(term_code(t, pool).code, term_postfix(t), term_leaves(t)),
    decreases t, t.rest.len() + 1,
{
    lemma_term_steps_in_order(t, t.rest.len(), pool);
}

/// The code of the first links of an expression that compiled is in postfix
/// order.
pub proof fn lemma_expr_steps_in_order(e: ExprView, k: nat, pool: Pool)
    requires
        expr_steps(e, k, pool).error.is_none(),
    ensures
        in_postfix_order(expr_steps(e, k, pool).code, expr_postfix_upto(e, k), expr_leaves_upto(e, k)),
    decreases e, k,
{
    if k == 0 {
        lemma_term_in_order(e.left, pool);
    } else if k > e.rest.len() {
        lemma_expr_steps_in_order(e, (k - 1) as nat, pool);
    } else {
        let before = expr_steps(e, (k - 1) as nat, pool);
        lemma_expr_steps_in_order(e, (k - 1) as nat, pool);
        let operand = term_code(e.rest[k - 1].1, before.pool);
        lemma_term_in_order(e.rest[k - 1].1, before.pool);
        lemma_link_in_order(
            before.code,
            operand.code,
            operand.pool,
            e.rest[k - 1].0,
            expr_postfix_upto(e, (k - 1) as nat),
            term_postfix(e.rest[k - 1].1),
            expr_leaves_upto(e, (k - 1) as nat),
            term_leaves(e.rest[k - 1].1),
        );
    }
}

/// The code of an expression that compiled is its postfix form with
/// registers filled in: the instructions of each operand come before the
/// instruction of the operator that combines them. It holds one load for
/// each of the expression's leaves and one operator instruction fewer.
pub proof fn lemma_expr_in_order(e: ExprView, pool: Pool)
    requires
        expr_code(e, pool).error.is_none(),
    ensures
        in_postfix_order(expr_code(e, pool).code, expr_postfix(e), expr_leaves(e)),
    decreases e, e.rest.len() + 1,
{
    lemma_expr_steps_in_order(e, e.rest.len(), pool);
}

} // verus!
