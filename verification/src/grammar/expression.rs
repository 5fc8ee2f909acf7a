//! Expressions: terms joined by `+` and `-`.

use vstd::prelude::*;
use crate::compiler::{listing, Compiler, CompileError, Pool, Run};
use crate::grammar::demand::{expr_demand, expr_supported, lemma_expr_ends_as_owed};
use crate::grammar::operator::{parse_add, parse_sub, Operator};
use crate::grammar::order::{
    expr_leaves, expr_postfix, in_postfix_order, lemma_expr_in_order,
};
use crate::grammar::registers::{
    lemma_expr_disciplined, lemma_expr_steps_disciplined, lemma_same_registers_keep,
    lemma_term_disciplined,
};
use crate::grammar::shape::{expr_wf, lemma_expr_rule_wf};
use crate::grammar::sources::{feeds_itself, lemma_expr_feeds_itself};
use crate::grammar::syntax::{
    expr_link, expr_links, expr_rule, is_tail, lemma_expr_link_reads, lemma_expr_reads,
    lemma_term_reads, lemma_trim_is_tail,
};
use crate::grammar::term::{parse_term, Term, TermView};
use crate::grammar::visitor::{
    expr_code, expr_steps, lemma_listing_concat, lemma_steps_stay_failed_expr, term_code,
    Visitor,
};
use crate::parse::{consumed, outcome, Parse, ParseResult, Parsed, Rule};
use crate::scan::skip_blanks;

verus! {

/// A term followed by a chain of additions and subtractions, applied from
/// left to right.
#[derive(Debug, PartialEq)]
pub struct Expr {
    /// The leftmost term.
    pub left: Box<Term>,
    /// The operators that follow, each with its right operand, in order;
    /// `None` when there are none.
    pub rest: Option<Vec<(Operator, Term)>>,
}

/// The mathematical content of an [`Expr`].
pub ghost struct ExprView {
    pub left: TermView,
    pub rest: Seq<(Operator, TermView)>,
}

impl Expr {
    /// The tree that the expression stands for.
    pub open spec fn model(&self) -> ExprView
        decreases self,
    {
        ExprView {
            left: (*self.left).model(),
            rest: match self.rest {
                None => Seq::empty(),
                Some(v) => Seq::new(
                    v@.len(),
                    |i: int|
                        if 0 <= i < v@.len() {
                            (v@[i].0, v@[i].1.model())
                        } else {
                            arbitrary()
                        },
                ),
            },
        }
    }
}

impl Expr {
    /// Whether no chain in the expression is written as an empty list: a node
    /// whose chain has no link has `None` for it, here and in every node
    /// below.
    pub open spec fn chains_written(&self) -> bool
        decreases self,
    {
        &&& (*self.left).chains_written()
        &&& match self.rest {
            None => true,
            Some(v) => v@.len() > 0 && forall|i: int|
                0 <= i < v@.len() ==> (#[trigger] v@[i]).1.chains_written(),
        }
    }
}

impl View for Expr {
    type V = ExprView;

    open spec fn view(&self) -> ExprView {
        self.model()
    }
}

impl Expr {
    /// Emits the instructions of the expression: those of its leftmost operand,
    /// then for each link of the chain those of the right operand and the
    /// one that applies the operator.
    pub(crate) fn lower(&self, compiler: &mut Compiler) -> (r: Result<(), CompileError>)
        ensures
            old(compiler).advances_to(final(compiler), expr_code(self@, old(compiler).pool())),
            r == expr_code(self@, old(compiler).pool()).reported(),
        decreases self,
    {
        let ghost start = compiler.pool();
        let ghost lines = compiler.lines();
        match self.left.lower(compiler) {
            Err(e) => {
                proof {
                    lemma_steps_stay_failed_expr(self@, 0, self@.rest.len(), start);
                }
                return Err(e);
            },
            Ok(()) => {},
        }
        match &self.rest {
            None => Ok(()),
            Some(rest) => {
                let n: usize = rest.len();
                let mut i: usize = 0;
                while i < n
                    invariant
                        start == old(compiler).pool(),
                        lines == old(compiler).lines(),
                        self.rest == Some(*rest),
                        n == rest@.len(),
                        n == self@.rest.len(),
                        0 <= i <= n,
                        expr_steps(self@, i as nat, start).error.is_none(),
                        compiler.pool() == expr_steps(self@, i as nat, start).pool,
                        compiler.lines() == lines + listing(expr_steps(self@, i as nat, start).code),
                    decreases n - i,
                {
                    let ghost before = expr_steps(self@, i as nat, start);
                    let ghost operand = term_code(self@.rest[i as int].1, before.pool);
                    assert(self@.rest[i as int] == (rest@[i as int].0, rest@[i as int].1@));
                    match rest[i].1.lower(compiler) {
                        Err(e) => {
                            proof {
                                lemma_listing_concat(lines, before.code, operand.code);
                                lemma_steps_stay_failed_expr(self@, (i + 1) as nat, n as nat, start);
                            }
                            return Err(e);
                        },
                        Ok(()) => {},
                    }
                    proof {
                        lemma_listing_concat(lines, before.code, operand.code);
                        lemma_expr_steps_disciplined(self@, i as nat, start);
                        lemma_term_disciplined(self@.rest[i as int].1, before.pool);
                    }
                    let op = rest[i].0;
                    match op.compile_token(compiler) {
                        Err(e) => {
                            proof {
                                lemma_listing_concat(
                                    lines,
                                    before.code + operand.code,
                                    operand.pool.combine(op).code,
                                );
                                lemma_steps_stay_failed_expr(self@, (i + 1) as nat, n as nat, start);
                            }
                            return Err(e);
                        },
                        Ok(()) => {},
                    }
                    proof {
                        lemma_listing_concat(
                            lines,
                            before.code + operand.code,
                            operand.pool.combine(op).code,
                        );
                    }
                    i = i + 1;
                }
                Ok(())
            },
        }
    }
}

impl Visitor<'_> for Expr {
    open spec fn code(&self, pool: Pool) -> Run {
        expr_code(self@, pool)
    }

    open spec fn operands_ready(&self, pool: Pool) -> bool {
        true
    }

    /// Emits the instructions of the expression. It succeeds exactly when every
    /// leaf is an integer literal and the free stack is as deep as the
    /// expression demands; it then leaves one more register in use, which holds
    /// the result, and has emitted one load for each leaf and one operator
    /// instruction fewer, in postfix order, each operator instruction after
    /// the instructions that wrote its operands.
    fn compile_token(&self, compiler: &mut Compiler) -> (r: Result<(), CompileError>)
        ensures
            r.is_ok() <==> expr_supported(self@) && expr_demand(self@) <= old(
                compiler,
            ).free_reg@.len(),
            r == Err::<(), CompileError>(CompileError::UnsupportedOperand) ==> !expr_supported(
                self@,
            ),
            r == Err::<(), CompileError>(CompileError::RegisterPoolExhausted) ==> expr_demand(
                self@,
            ) > old(compiler).free_reg@.len(),
            r.is_ok() ==> old(compiler).gained_result(
                final(compiler),
                (2 * expr_leaves(self@) - 1) as nat,
            ),
            r.is_ok() ==> in_postfix_order(
                self.code(old(compiler).pool()).code,
                expr_postfix(self@),
                expr_leaves(self@),
            ),
            r.is_ok() ==> feeds_itself(self.code(old(compiler).pool())),
            old(compiler).wf() ==> final(compiler).wf(),
    {
        proof {
            let pool = compiler.pool();
            lemma_expr_ends_as_owed(self@, pool);
            lemma_expr_disciplined(self@, pool);
            lemma_same_registers_keep(pool, expr_code(self@, pool).pool);
            if expr_code(self@, pool).error.is_none() {
                lemma_expr_in_order(self@, pool);
                lemma_expr_feeds_itself(self@, pool);
            }
        }
        let r = self.lower(compiler);
        proof {
            let code = expr_code(self@, old(compiler).pool()).code;
            assert(compiler.lines().len() == old(compiler).lines().len() + listing(code).len());
        }
        r
    }
}

/// Reads one link of an expression's chain from the front of `input`: an operator,
/// `+` or `-`, and its right operand, with white space around them. Yields
/// nothing when `input` does not begin with one.
pub fn parse_expr_link(input: &str) -> (r: Option<(&str, (Operator, Term))>)
    ensures
        match r {
            Some((rest, (op, right))) => expr_link(input@) == Some((rest@, (op, right@)))
                && right.chains_written(),
            None => expr_link(input@).is_none(),
        },
    decreases input@.len(), 0nat,
{
    let at = skip_blanks(input);
    proof {
        lemma_trim_is_tail(input@);
    }
    let (after, op) = match parse_add(at) {
        Ok(found) => found,
        Err(_) => match parse_sub(at) {
            Ok(found) => found,
            Err(_) => {
                return None;
            },
        },
    };
    let operand = skip_blanks(after);
    proof {
        lemma_trim_is_tail(after@);
    }
    match parse_term(operand) {
        Err(_) => None,
        Ok((rest, right)) => Some((rest, (op, right))),
    }
}

/// The links of a chain as the tree holds them.
pub open spec fn expr_links_view(links: Seq<(Operator, Term)>) -> Seq<(Operator, TermView)> {
    Seq::new(links.len(), |i: int| (links[i].0, links[i].1@))
}

/// Reads an expression from the front of `input`.
pub fn parse_expr(input: &str) -> (r: ParseResult<'_, Expr>)
    ensures
        outcome(r) == expr_rule(input@),
        r matches Ok((_, node)) ==> node.chains_written(),
    decreases input@.len(), 3nat,
{
    let first = skip_blanks(input);
    proof {
        lemma_trim_is_tail(input@);
        lemma_term_reads(first@);
    }
    let (after_left, left) = match parse_term(first) {
        Err(e) => {
            return Err(e.within(Rule::Expression, consumed(input, first)));
        },
        Ok(found) => found,
    };
    let ghost start = after_left@;
    let mut cur = after_left;
    let mut links: Vec<(Operator, Term)> = Vec::new();
    loop
        invariant
            cur@.len() <= start.len(),
            start.len() < first@.len(),
            first@.len() <= input@.len(),
            expr_links(start).0 == expr_links(cur@).0,
            expr_links(start).1 == expr_links_view(links@) + expr_links(cur@).1,
            left.chains_written(),
            forall|i: int| 0 <= i < links@.len() ==> (#[trigger] links@[i]).1.chains_written(),
        ensures
            expr_links(cur@) == (cur@, Seq::<(Operator, TermView)>::empty()),
        decreases cur@.len(),
    {
        proof {
            lemma_expr_link_reads(cur@);
        }
        match parse_expr_link(cur) {
            None => {
                break;
            },
            Some((rest, link)) => {
                proof {
                    let more = expr_links(rest@).1;
                    let seen = expr_links_view(links@);
                    assert(expr_links_view(links@.push(link)) =~= seen.push((link.0, link.1@)));
                    assert(seen.push((link.0, link.1@)) + more =~= seen + (seq![(link.0, link.1@)]
                        + more));
                }
                links.push(link);
                cur = rest;
            },
        }
    }
    proof {
        assert(expr_links(start).1 =~= expr_links_view(links@));
    }
    let rest = if links.len() == 0 {
        None
    } else {
        Some(links)
    };
    let node = Expr { left: Box::new(left), rest };
    assert(node@.rest =~= expr_links(start).1);
    assert(node.chains_written());
    Ok((cur, node))
}

impl<'a> Parse<'a> for Expr {
    open spec fn syntax(text: Seq<char>) -> Parsed<ExprView> {
        expr_rule(text)
    }

    /// Reads an expression from the front of `input`. What is read is never
    /// empty, what is handed back as unread is the rest of `input`, and the
    /// node is one that the grammar can yield, with `None` for every chain
    /// that has no link.
    fn parse(input: &'a str) -> (r: ParseResult<'a, Self>)
        ensures
            r matches Ok((rest, node)) ==> is_tail(rest@, input@) && rest@.len() < input@.len()
                && expr_wf(node@) && node.chains_written(),
            r matches Err(e) ==> e@.position <= input@.len(),
    {
        proof {
            lemma_expr_reads(input@);
            lemma_expr_rule_wf(input@);
        }
        parse_expr(input)
    }
}

} // verus!
