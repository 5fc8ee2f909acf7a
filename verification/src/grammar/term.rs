//! Terms: factors joined by `*` and `/`.

use vstd::prelude::*;
use crate::compiler::{listing, Compiler, CompileError, Pool, Run};
use crate::grammar::demand::{lemma_term_ends_as_owed, term_demand, term_supported};
use crate::grammar::factor::{parse_factor, Factor, FactorView};
use crate::grammar::operator::{parse_div, parse_mul, Operator};
use crate::grammar::order::{
    term_leaves, term_postfix, in_postfix_order, lemma_term_in_order,
};
use crate::grammar::registers::{
    lemma_factor_disciplined, lemma_same_registers_keep, lemma_term_disciplined,
    lemma_term_steps_disciplined,
};
use crate::grammar::shape::{lemma_term_rule_wf, term_wf};
use crate::grammar::sources::{feeds_itself, lemma_term_feeds_itself};
use crate::grammar::syntax::{
    is_tail, lemma_factor_reads, lemma_term_link_reads, lemma_term_reads, lemma_trim_is_tail,
    term_link, term_links, term_rule,
};
use crate::grammar::visitor::{
    factor_code, lemma_listing_concat, lemma_steps_stay_failed_term, term_code, term_steps,
    Visitor,
};
use crate::parse::{outcome, Parse, ParseResult, Parsed, Rule};
use crate::scan::skip_blanks;

verus! {

/// A factor followed by a chain of multiplications and divisions, applied
/// from left to right.
#[derive(Debug, PartialEq)]
pub struct Term {
    /// The leftmost factor.
    pub left: Box<Factor>,
    /// The operators that follow, each with its right operand, in order;
    /// `None` when there are none.
    pub rest: Option<Vec<(Operator, Factor)>>,
}

/// The mathematical content of a [`Term`].
pub ghost struct TermView {
    pub left: FactorView,
    pub rest: Seq<(Operator, FactorView)>,
}

impl Term {
    /// The tree that the term stands for.
    pub open spec fn model(&self) -> TermView
        decreases self,
    {
        TermView {
            left: (*self.left).model(),
            rest: match self.rest {
                None => Seq::empty(),
                Some(v) => Seq::new(
                    v@.len(),
                    |i: int|
                        if 0 <= i < v@.len() {
                            (v@[i].0, v@[i].1.model())
                        } else {
                            arbitrary()
                        },
                ),
            },
        }
    }
}

impl Term {
    /// Whether no chain in the term is written as an empty list: a node
    /// whose chain has no link has `None` for it, here and in every node
    /// below.
    pub open spec fn chains_written(&self) -> bool
        decreases self,
    {
        &&& (*self.left).chains_written()
        &&& match self.rest {
            None => true,
            Some(v) => v@.len() > 0 && forall|i: int|
                0 <= i < v@.len() ==> (#[trigger] v@[i]).1.chains_written(),
        }
    }
}

impl View for Term {
    type V = TermView;

    open spec fn view(&self) -> TermView {
        self.model()
    }
}

impl Term {
    /// Emits the instructions of the term: those of its leftmost operand,
    /// then for each link of the chain those of the right operand and the
    /// one that applies the operator.
    pub(crate) fn lower(&self, compiler: &mut Compiler) -> (r: Result<(), CompileError>)
        ensures
            old(compiler).advances_to(final(compiler), term_code(self@, old(compiler).pool())),
            r == term_code(self@, old(compiler).pool()).reported(),
        decreases self,
    {
        let ghost start = compiler.pool();
        let ghost lines = compiler.lines();
        match self.left.lower(compiler) {
            Err(e) => {
                proof {
                    lemma_steps_stay_failed_term(self@, 0, self@.rest.len(), start);
                }
                return Err(e);
            },
            Ok(()) => {},
        }
        match &self.rest {
            None => Ok(()),
            Some(rest) => {
                let n: usize = rest.len();
                let mut i: usize = 0;
                while i < n
                    invariant
                        start == old(compiler).pool(),
                        lines == old(compiler).lines(),
                        self.rest == Some(*rest),
                        n == rest@.len(),
                        n == self@.rest.len(),
                        0 <= i <= n,
                        term_steps(self@, i as nat, start).error.is_none(),
                        compiler.pool() == term_steps(self@, i as nat, start).pool,
                        compiler.lines() == lines + listing(term_steps(self@, i as nat, start).code),
                    decreases n - i,
                {
                    let ghost before = term_steps(self@, i as nat, start);
                    let ghost operand = factor_code(self@.rest[i as int].1, before.pool);
                    assert(self@.rest[i as int] == (rest@[i as int].0, rest@[i as int].1@));
                    match rest[i].1.lower(compiler) {
                        Err(e) => {
                            proof {
                                lemma_listing_concat(lines, before.code, operand.code);
                                lemma_steps_stay_failed_term(self@, (i + 1) as nat, n as nat, start);
                            }
                            return Err(e);
                        },
                        Ok(()) => {},
                    }
                    proof {
                        lemma_listing_concat(lines, before.code, operand.code);
                        lemma_term_steps_disciplined(self@, i as nat, start);
                        lemma_factor_disciplined(self@.rest[i as int].1, before.pool);
                    }
                    let op = rest[i].0;
                    match op.compile_token(compiler) {
                        Err(e) => {
                            proof {
                                lemma_listing_concat(
                                    lines,
                                    before.code + operand.code,
                                    operand.pool.combine(op).code,
                                );
                                lemma_steps_stay_failed_term(self@, (i + 1) as nat, n as nat, start);
                            }
                            return Err(e);
                        },
                        Ok(()) => {},
                    }
                    proof {
                        lemma_listing_concat(
                            lines,
                            before.code + operand.code,
                            operand.pool.combine(op).code,
                        );
                    }
                    i = i + 1;
                }
                Ok(())
            },
        }
    }
}

impl Visitor<'_> for Term {
    open spec fn code(&self, pool: Pool) -> Run {
        term_code(self@, pool)
    }

    open spec fn operands_ready(&self, pool: Pool) -> bool {
        true
    }

    /// Emits the instructions of the term. It succeeds exactly when every
    /// leaf is an integer literal and the free stack is as deep as the
    /// term demands; it then leaves one more register in use, which holds
    /// the result, and has emitted one load for each leaf and one operator
    /// instruction fewer, in postfix order, each operator instruction after
    /// the instructions that wrote its operands.
    fn compile_token(&self, compiler: &mut Compiler) -> (r: Result<(), CompileError>)
        ensures
            r.is_ok() <==> term_supported(self@) && term_demand(self@) <= old(
                compiler,
            ).free_reg@.len(),
            r == Err::<(), CompileError>(CompileError::UnsupportedOperand) ==> !term_supported(
                self@,
            ),
            r == Err::<(), CompileError>(CompileError::RegisterPoolExhausted) ==> term_demand(
                self@,
            ) > old(compiler).free_reg@.len(),
            r.is_ok() ==> old(compiler).gained_result(
                final(compiler),
                (2 * term_leaves(self@) - 1) as nat,
            ),
            r.is_ok() ==> in_postfix_order(
                self.code(old(compiler).pool()).code,
                term_postfix(self@),
                term_leaves(self@),
            ),
            r.is_ok() ==> feeds_itself(self.code(old(compiler).pool())),
            old(compiler).wf() ==> final(compiler).wf(),
    {
        proof {
            let pool = compiler.pool();
            lemma_term_ends_as_owed(self@, pool);
            lemma_term_disciplined(self@, pool);
            lemma_same_registers_keep(pool, term_code(self@, pool).pool);
            if term_code(self@, pool).error.is_none() {
                lemma_term_in_order(self@, pool);
                lemma_term_feeds_itself(self@, pool);
            }
        }
        let r = self.lower(compiler);
        proof {
            let code = term_code(self@, old(compiler).pool()).code;
            assert(compiler.lines().len() == old(compiler).lines().len() + listing(code).len());
        }
        r
    }
}

/// Reads one link of a term's chain from the front of `input`: an operator,
/// `*` or `/`, and its right operand, with white space around them. Yields
/// nothing when `input` does not begin with one.
pub fn parse_term_link(input: &str) -> (r: Option<(&str, (Operator, Factor))>)
    ensures
        match r {
            Some((rest, (op, right))) => term_link(input@) == Some((rest@, (op, right@)))
                && right.chains_written(),
            None => term_link(input@).is_none(),
        },
    decreases input@.len(), 0nat,
{
    let at = skip_blanks(input);
    proof {
        lemma_trim_is_tail(input@);
    }
    let (after, op) = match parse_mul(at) {
        Ok(found) => found,
        Err(_) => match parse_div(at) {
            Ok(found) => found,
            Err(_) => {
                return None;
            },
        },
    };
    let operand = skip_blanks(after);
    proof {
        lemma_trim_is_tail(after@);
    }
    match parse_factor(operand) {
        Err(_) => None,
        Ok((rest, right)) => Some((skip_blanks(rest), (op, right))),
    }
}

/// The links of a chain as the tree holds them.
pub open spec fn term_links_view(links: Seq<(Operator, Factor)>) -> Seq<(Operator, FactorView)> {
    Seq::new(links.len(), |i: int| (links[i].0, links[i].1@))
}

/// Reads a term from the front of `input`.
pub fn parse_term(input: &str) -> (r: ParseResult<'_, Term>)
    ensures
        outcome(r) == term_rule(input@),
        r matches Ok((_, node)) ==> node.chains_written(),
    decreases input@.len(), 2nat,
{
    proof {
        lemma_factor_reads(input@);
    }
    let (after_left, left) = match parse_factor(input) {
        Err(e) => {
            return Err(e.within(Rule::Term, 0));
        },
        Ok(found) => found,
    };
    let ghost start = after_left@;
    let mut cur = after_left;
    let mut links: Vec<(Operator, Factor)> = Vec::new();
    loop
        invariant
            cur@.len() <= start.len(),
            start.len() < input@.len(),
            term_links(start).0 == term_links(cur@).0,
            term_links(start).1 == term_links_view(links@) + term_links(cur@).1,
            left.chains_written(),
            forall|i: int| 0 <= i < links@.len() ==> (#[trigger] links@[i]).1.chains_written(),
        ensures
            term_links(cur@) == (cur@, Seq::<(Operator, FactorView)>::empty()),
        decreases cur@.len(),
    {
        proof {
            lemma_term_link_reads(cur@);
        }
        match parse_term_link(cur) {
            None => {
                break;
            },
            Some((rest, link)) => {
                proof {
                    let more = term_links(rest@).1;
                    let seen = term_links_view(links@);
                    assert(term_links_view(links@.push(link)) =~= seen.push((link.0, link.1@)));
                    assert(seen.push((link.0, link.1@)) + more =~= seen + (seq![(link.0, link.1@)]
                        + more));
                }
                links.push(link);
                cur = rest;
            },
        }
    }
    proof {
        assert(term_links(start).1 =~= term_links_view(links@));
    }
    let rest = if links.len() == 0 {
        None
    } else {
        Some(links)
    };
    let node = Term { left: Box::new(left), rest };
    assert(node@.rest =~= term_links(start).1);
    assert(node.chains_written());
    Ok((cur, node))
}

impl<'a> Parse<'a> for Term {
    open spec fn syntax(text: Seq<char>) -> Parsed<TermView> {
        term_rule(text)
    }

    /// Reads a term from the front of `input`. What is read is never
    /// empty, what is handed back as unread is the rest of `input`, and the
    /// node is one that the grammar can yield, with `None` for every chain
    /// that has no link.
    fn parse(input: &'a str) -> (r: ParseResult<'a, Self>)
        ensures
            r matches Ok((rest, node)) ==> is_tail(rest@, input@) && rest@.len() < input@.len()
                && term_wf(node@) && node.chains_written(),
            r matches Err(e) ==> e@.position <= input@.len(),
    {
        proof {
            lemma_term_reads(input@);
            lemma_term_rule_wf(input@);
        }
        parse_term(input)
    }
}

} // verus!
