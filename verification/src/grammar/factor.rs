//! Factors: literals, identifiers and parenthesized expressions.

use vstd::prelude::*;
use crate::compiler::{
    is_least, lemma_lowest_is_least, listing, load_line, Compiler, CompileError, Pool, Run,
};
use crate::grammar::demand::{factor_demand, factor_supported, lemma_factor_ends_as_owed};
use crate::grammar::expression::{parse_expr, Expr, ExprView};
use crate::grammar::order::{
    factor_leaves, factor_postfix, in_postfix_order, lemma_factor_in_order,
};
use crate::grammar::registers::{lemma_factor_disciplined, lemma_same_registers_keep};
use crate::grammar::shape::{factor_wf, lemma_factor_rule_wf};
use crate::grammar::sources::{feeds_itself, lemma_factor_feeds_itself};
use crate::grammar::syntax::{
    factor_rule, float_rule, identifier_rule, integer_rule, is_tail, lemma_expr_reads,
    lemma_factor_reads, lemma_starts_with_prefix, lemma_trim_is_tail, paren_rule, sign_len,
};
use crate::grammar::visitor::{factor_code, Visitor};
use crate::number::{digits_to_i64, lemma_digit_run_all_digits};
use crate::parse::{consumed, outcome, Parse, ParseError, ParseResult, Parsed, Rule};
use crate::scan::{
    alpha_run, digit_run, lemma_run_len_bounded, skip_blanks, strip_token, CharClass,
};

verus! {

/// A literal with a decimal point, kept as it was written: the sign, the
/// digits before the point and the digits after it.
#[derive(Debug, PartialEq, Eq)]
pub struct Decimal {
    /// Whether a minus sign precedes the digits.
    pub negative: bool,
    /// The digits before the point; at least one.
    pub whole: String,
    /// The digits after the point; at least one.
    pub fraction: String,
}

/// The mathematical content of a [`Decimal`].
pub ghost struct DecimalView {
    pub negative: bool,
    pub whole: Seq<char>,
    pub fraction: Seq<char>,
}

impl View for Decimal {
    type V = DecimalView;

    open spec fn view(&self) -> DecimalView {
        DecimalView { negative: self.negative, whole: self.whole@, fraction: self.fraction@ }
    }
}

/// The smallest unit of syntax.
#[derive(Debug, PartialEq)]
pub enum Factor {
    /// An integer literal.
    Integer(i64),
    /// A literal with a decimal point.
    Float(Decimal),
    /// A name.
    Identifier(String),
    /// An expression between parentheses.
    Expr(Expr),
}

/// The mathematical content of a [`Factor`].
pub ghost enum FactorView {
    Integer(i64),
    Float(DecimalView),
    Identifier(Seq<char>),
    Expr(Box<ExprView>),
}

impl Factor {
    /// The tree that the factor stands for.
    pub open spec fn model(&self) -> FactorView
        decreases self,
    {
        match self {
            Factor::Integer(n) => FactorView::Integer(*n),
            Factor::Float(d) => FactorView::Float(d@),
            Factor::Identifier(s) => FactorView::Identifier(s@),
            Factor::Expr(e) => FactorView::Expr(Box::new(e.model())),
        }
    }
}

impl Factor {
    /// Whether no chain in the factor is written as an empty list: see
    /// [`Term::chains_written`](crate::grammar::term::Term::chains_written).
    pub open spec fn chains_written(&self) -> bool
        decreases self,
    {
        match self {
            Factor::Expr(e) => e.chains_written(),
            _ => true,
        }
    }
}

impl View for Factor {
    type V = FactorView;

    open spec fn view(&self) -> FactorView {
        self.model()
    }
}

impl Factor {
    /// Emits the instructions of the factor.
    pub(crate) fn lower(&self, compiler: &mut Compiler) -> (r: Result<(), CompileError>)
        ensures
            old(compiler).advances_to(final(compiler), factor_code(self@, old(compiler).pool())),
            r == factor_code(self@, old(compiler).pool()).reported(),
        decreases self,
    {
        match self {
            Factor::Integer(val) => {
                match compiler.allocate() {
                    None => {
                        assert(compiler.lines() =~= old(compiler).lines() + Seq::empty());
                        Err(CompileError::RegisterPoolExhausted)
                    },
                    Some(next_reg) => {
                        let line = load_line(next_reg, *val);
                        compiler.used_reg.push(next_reg);
                        compiler.emit(line);
                        proof {
                            let run = old(compiler).pool().load(*val);
                            assert(compiler.pool().free =~= run.pool.free);
                            assert(compiler.pool().used =~= run.pool.used);
                            assert(compiler.lines() =~= old(compiler).lines() + listing(run.code));
                        }
                        Ok(())
                    },
                }
            },
            Factor::Float(_) => {
                assert(compiler.lines() =~= old(compiler).lines() + Seq::empty());
                Err(CompileError::UnsupportedOperand)
            },
            Factor::Identifier(_) => {
                assert(compiler.lines() =~= old(compiler).lines() + Seq::empty());
                Err(CompileError::UnsupportedOperand)
            },
            Factor::Expr(expr) => expr.lower(compiler),
        }
    }
}

impl Visitor<'_> for Factor {
    open spec fn code(&self, pool: Pool) -> Run {
        factor_code(self@, pool)
    }

    open spec fn operands_ready(&self, pool: Pool) -> bool {
        true
    }

    /// Emits the instructions of the factor. An integer literal is loaded
    /// into the lowest-numbered free register. It succeeds exactly when every
    /// leaf is an integer literal and the free stack is as deep as the
    /// factor demands; it then leaves one more register in use, which holds
    /// the result, and has emitted one load for each leaf and one operator
    /// instruction fewer, in postfix order, each operator instruction after
    /// the instructions that wrote its operands.
    fn compile_token(&self, compiler: &mut Compiler) -> (r: Result<(), CompileError>)
        ensures
            r.is_ok() <==> factor_supported(self@) && factor_demand(self@) <= old(
                compiler,
            ).free_reg@.len(),
            r == Err::<(), CompileError>(CompileError::UnsupportedOperand) ==> !factor_supported(
                self@,
            ),
            r == Err::<(), CompileError>(CompileError::RegisterPoolExhausted) ==> factor_demand(
                self@,
            ) > old(compiler).free_reg@.len(),
            r.is_ok() ==> old(compiler).gained_result(
                final(compiler),
                (2 * factor_leaves(self@) - 1) as nat,
            ),
            r.is_ok() ==> in_postfix_order(
                self.code(old(compiler).pool()).code,
                factor_postfix(self@),
                factor_leaves(self@),
            ),
            r.is_ok() ==> feeds_itself(self.code(old(compiler).pool())),
            r.is_ok() && self is Integer ==> is_least(
                final(compiler).used_reg@.last(),
                old(compiler).free_reg@,
            ),
            old(compiler).wf() ==> final(compiler).wf(),
    {
        proof {
            let pool = compiler.pool();
            lemma_factor_ends_as_owed(self@, pool);
            if pool.free.len() > 0 {
                lemma_lowest_is_least(pool.free);
            }
            lemma_factor_disciplined(self@, pool);
            lemma_same_registers_keep(pool, factor_code(self@, pool).pool);
            if factor_code(self@, pool).error.is_none() {
                lemma_factor_in_order(self@, pool);
                lemma_factor_feeds_itself(self@, pool);
            }
        }
        let r = self.lower(compiler);
        proof {
            let code = factor_code(self@, old(compiler).pool()).code;
            assert(compiler.lines().len() == old(compiler).lines().len() + listing(code).len());
        }
        r
    }
}

/// Splits the sign that may precede a literal off `input`: whether there is
/// one, and what follows it.
fn split_sign<'a>(input: &'a str) -> (r: (bool, &'a str))
    ensures
        r.0 == (sign_len(input@) == 1),
        r.1@ == input@.skip(sign_len(input@) as int),
{
    proof {
        reveal_strlit("-");
        lemma_starts_with_prefix(input@, '-');
        assert("-"@ =~= seq!['-']);
    }
    match strip_token(input, "-") {
        Some(body) => (true, body),
        None => {
            assert(input@ =~= input@.skip(0));
            (false, input)
        },
    }
}

/// Reads an integer literal, such as `98` or `-3`, from the front of `input`.
pub fn parse_int(input: &str) -> (r: ParseResult<'_, Factor>)
    ensures
        outcome(r) == integer_rule(input@),
        r matches Ok((_, node)) ==> node.chains_written(),
{
    let (negative, body) = split_sign(input);
    match digit_run(body) {
        None => Err(ParseError::of(Rule::Integer, consumed(input, body))),
        Some((rest, run)) => {
            proof {
                lemma_digit_run_all_digits(body@);
            }
            match digits_to_i64(run) {
                None => Err(ParseError::of(Rule::Integer, consumed(input, body))),
                Some(magnitude) => {
                    let value: i64 = if negative {
                        -magnitude
                    } else {
                        magnitude
                    };
                    Ok((rest, Factor::Integer(value)))
                },
            }
        },
    }
}

/// Reads a literal with a decimal point, such as `98.4` or `-3.2`, from the
/// front of `input`.
pub fn parse_float(input: &str) -> (r: ParseResult<'_, Factor>)
    ensures
        outcome(r) == float_rule(input@),
        r matches Ok((_, node)) ==> node.chains_written(),
{
    let (negative, body) = split_sign(input);
    proof {
        lemma_run_len_bounded(CharClass::Digit, body@);
    }
    match digit_run(body) {
        None => Err(ParseError::of(Rule::Float, consumed(input, body))),
        Some((point, whole)) => {
            proof {
                reveal_strlit(".");
                lemma_starts_with_prefix(point@, '.');
                assert("."@ =~= seq!['.']);
            }
            match strip_token(point, ".") {
                None => Err(ParseError::of(Rule::Float, consumed(input, point))),
                Some(tail) => {
                    proof {
                        lemma_run_len_bounded(CharClass::Digit, tail@);
                    }
                    match digit_run(tail) {
                        None => Err(ParseError::of(Rule::Float, consumed(input, tail))),
                        Some((rest, fraction)) => Ok(
                            (
                                rest,
                                Factor::Float(
                                    Decimal {
                                        negative,
                                        whole: whole.to_owned(),
                                        fraction: fraction.to_owned(),
                                    },
                                ),
                            ),
                        ),
                    }
                },
            }
        },
    }
}

/// Reads an identifier, a run of letters, from the front of `input`.
pub fn parse_identifier(input: &str) -> (r: ParseResult<'_, Factor>)
    ensures
        outcome(r) == identifier_rule(input@),
        r matches Ok((_, node)) ==> node.chains_written(),
{
    match alpha_run(input) {
        Some((rest, name)) => Ok((rest, Factor::Identifier(name.to_owned()))),
        None => Err(ParseError::of(Rule::Identifier, 0)),
    }
}

/// Reads an expression between parentheses, such as `(9 *-8)`, from the
/// front of `input`.
pub fn parse_paren_expr(input: &str) -> (r: ParseResult<'_, Factor>)
    ensures
        outcome(r) == paren_rule(input@),
        r matches Ok((_, node)) ==> node.chains_written(),
    decreases input@.len(), 0nat,
{
    proof {
        reveal_strlit("(");
        reveal_strlit(")");
        lemma_starts_with_prefix(input@, '(');
        assert("("@ =~= seq!['(']);
        assert(")"@ =~= seq![')']);
    }
    match strip_token(input, "(") {
        None => Err(ParseError::of(Rule::ParenthesizedExpression, 0)),
        Some(inner) => {
            let opening: usize = consumed(input, inner);
            proof {
                lemma_expr_reads(inner@);
            }
            match parse_expr(inner) {
                Err(e) => Err(e.within(Rule::ParenthesizedExpression, opening)),
                Ok((rest, expr)) => {
                    let close = skip_blanks(rest);
                    proof {
                        lemma_trim_is_tail(rest@);
                        lemma_starts_with_prefix(close@, ')');
                    }
                    match strip_token(close, ")") {
                        Some(after) => Ok((after, Factor::Expr(expr))),
                        None => Err(
                            ParseError::of(
                                Rule::ParenthesizedExpression,
                                consumed(input, close),
                            ),
                        ),
                    }
                },
            }
        },
    }
}

/// Reads a factor from the front of `input`: an identifier, a literal with a
/// decimal point, an integer literal or a parenthesized expression, whichever
/// matches first in this order.
pub fn parse_factor(input: &str) -> (r: ParseResult<'_, Factor>)
    ensures
        outcome(r) == factor_rule(input@),
        r matches Ok((_, node)) ==> node.chains_written(),
    decreases input@.len(), 1nat,
{
    if let Ok(found) = parse_identifier(input) {
        return Ok(found);
    }
    if let Ok(found) = parse_float(input) {
        return Ok(found);
    }
    if let Ok(found) = parse_int(input) {
        return Ok(found);
    }
    match parse_paren_expr(input) {
        Ok(found) => Ok(found),
        Err(e) => Err(e.within(Rule::Factor, 0)),
    }
}

impl<'a> Parse<'a> for Factor {
    open spec fn syntax(text: Seq<char>) -> Parsed<FactorView> {
        factor_rule(text)
    }

    /// Reads a factor from the front of `input`. What is read is never
    /// empty, what is handed back as unread is the rest of `input`, and the
    /// node is one that the grammar can yield, with `None` for every chain
    /// that has no link.
    fn parse(input: &'a str) -> (r: ParseResult<'a, Self>)
        ensures
            r matches Ok((rest, node)) ==> is_tail(rest@, input@) && rest@.len() < input@.len()
                && factor_wf(node@) && node.chains_written(),
            r matches Err(e) ==> e@.position <= input@.len(),
    {
        proof {
            lemma_factor_reads(input@);
            lemma_factor_rule_wf(input@);
        }
        parse_factor(input)
    }
}

} // verus!
