//! The grammar, as functions from a text to what each rule yields on it.
//!
//! ```text
//! Program    := Expr ( ws newline? Expr )*
//! Expr       := ws Term ( ws ('+'|'-') ws Term )*
//! Term       := Factor ( ws ('*'|'/') ws Factor ws )*
//! Factor     := Identifier | Float | Integer | '(' Expr ws ')'
//! Integer    := '-'? digit+
//! Float      := '-'? digit+ '.' digit+
//! Identifier := alpha+
//! ```
//!
//! Choices are ordered and the first alternative that matches wins; every
//! repetition takes as many items as match. `ws` is a possibly empty run of
//! spaces and tabs; `newline` is a line feed, alone or after a carriage
//! return.

use vstd::prelude::*;
use crate::grammar::expression::ExprView;
use crate::grammar::factor::{DecimalView, FactorView};
use crate::grammar::operator::Operator;
use crate::grammar::term::TermView;
use crate::number::digits_value;
use crate::parse::{Failure, Parsed, Rule};
use crate::scan::{lemma_run_len_bounded, run_len, CharClass};

verus! {

/// Whether `s` begins with the character `c`.
pub open spec fn starts_with(s: Seq<char>, c: char) -> bool {
    s.len() > 0 && s[0] == c
}

/// A text begins with a character exactly when the one-character text of
/// that character is a prefix of it.
pub proof fn lemma_starts_with_prefix(s: Seq<char>, c: char)
    ensures
        starts_with(s, c) <==> seq![c].is_prefix_of(s),
{
    let t = seq![c];
    if starts_with(s, c) {
        assert(t =~= s.subrange(0, 1));
    }
    if t.is_prefix_of(s) {
        assert(t[0] == s.subrange(0, 1)[0]);
    }
}

/// `s` without its leading white space.
pub open spec fn trim(s: Seq<char>) -> Seq<char> {
    s.skip(run_len(CharClass::Blank, s) as int)
}

/// Length of the sign that may precede a literal: 1 if `s` begins with `-`.
pub open spec fn sign_len(s: Seq<char>) -> nat {
    if starts_with(s, '-') {
        1
    } else {
        0
    }
}

impl Operator {
    /// The rule that a failure to read this operator names.
    pub open spec fn rule(self) -> Rule {
        match self {
            Operator::AddOp => Rule::AddOperator,
            Operator::SubOp => Rule::SubtractOperator,
            Operator::MultOp => Rule::MultiplyOperator,
            Operator::DivOp => Rule::DivideOperator,
        }
    }
}

/// The rule of one given operator: its symbol at the front of the text.
pub open spec fn operator_rule(op: Operator, s: Seq<char>) -> Parsed<Operator> {
    if starts_with(s, op.symbol()) {
        Ok((s.skip(1), op))
    } else {
        Err(Failure::of(op.rule(), 0))
    }
}

/// The rule of any operator: `+`, `-`, `*` or `/` at the front of the text.
pub open spec fn any_operator_rule(s: Seq<char>) -> Parsed<Operator> {
    if starts_with(s, '+') {
        Ok((s.skip(1), Operator::AddOp))
    } else if starts_with(s, '-') {
        Ok((s.skip(1), Operator::SubOp))
    } else if starts_with(s, '*') {
        Ok((s.skip(1), Operator::MultOp))
    } else if starts_with(s, '/') {
        Ok((s.skip(1), Operator::DivOp))
    } else {
        Err(Failure::of(Rule::DivideOperator, 0).within(Rule::Operator, 0))
    }
}

/// `Identifier := alpha+`
pub open spec fn identifier_rule(s: Seq<char>) -> Parsed<FactorView> {
    let n = run_len(CharClass::Alpha, s);
    if n == 0 {
        Err(Failure::of(Rule::Identifier, 0))
    } else {
        Ok((s.skip(n as int), FactorView::Identifier(s.take(n as int))))
    }
}

/// `Integer := '-'? digit+`, where the digits denote a number of at most
/// `i64::MAX`. The sign belongs to the literal.
pub open spec fn integer_rule(s: Seq<char>) -> Parsed<FactorView> {
    let k = sign_len(s);
    let body = s.skip(k as int);
    let n = run_len(CharClass::Digit, body);
    let magnitude = digits_value(body.take(n as int));
    if n == 0 || magnitude > i64::MAX {
        Err(Failure::of(Rule::Integer, k))
    } else if k == 1 {
        Ok((body.skip(n as int), FactorView::Integer((-magnitude) as i64)))
    } else {
        Ok((body.skip(n as int), FactorView::Integer(magnitude as i64)))
    }
}

/// `Float := '-'? digit+ '.' digit+`. The sign belongs to the literal.
pub open spec fn float_rule(s: Seq<char>) -> Parsed<FactorView> {
    let k = sign_len(s);
    let body = s.skip(k as int);
    let n = run_len(CharClass::Digit, body);
    let point = body.skip(n as int);
    let tail = point.skip(1);
    let m = run_len(CharClass::Digit, tail);
    if n == 0 {
        Err(Failure::of(Rule::Float, k))
    } else if !starts_with(point, '.') {
        Err(Failure::of(Rule::Float, k + n))
    } else if m == 0 {
        Err(Failure::of(Rule::Float, k + n + 1))
    } else {
        Ok(
            (
                tail.skip(m as int),
                FactorView::Float(
                    DecimalView {
                        negative: k == 1,
                        whole: body.take(n as int),
                        fraction: tail.take(m as int),
                    },
                ),
            ),
        )
    }
}

/// `'(' Expr ws ')'`
pub open spec fn paren_rule(s: Seq<char>) -> Parsed<FactorView>
    decreases s.len(), 0nat,
{
    if !starts_with(s, '(') {
        Err(Failure::of(Rule::ParenthesizedExpression, 0))
    } else {
        match expr_rule(s.skip(1)) {
            Err(f) => Err(f.within(Rule::ParenthesizedExpression, 1)),
            Ok((rest, e)) => {
                let close = trim(rest);
                if starts_with(close, ')') {
                    Ok((close.skip(1), FactorView::Expr(Box::new(e))))
                } else {
                    Err(
                        Failure::of(
                            Rule::ParenthesizedExpression,
                            (s.len() - close.len()) as nat,
                        ),
                    )
                }
            },
        }
    }
}

/// `Factor := Identifier | Float | Integer | '(' Expr ws ')'`, tried in this
/// order. When none matches, the failure is that of the last alternative.
pub open spec fn factor_rule(s: Seq<char>) -> Parsed<FactorView>
    decreases s.len(), 1nat,
{
    if identifier_rule(s).is_ok() {
        identifier_rule(s)
    } else if float_rule(s).is_ok() {
        float_rule(s)
    } else if integer_rule(s).is_ok() {
        integer_rule(s)
    } else {
        match paren_rule(s) {
            Ok(found) => Ok(found),
            Err(f) => Err(f.within(Rule::Factor, 0)),
        }
    }
}

/// One link of a term's chain: `ws ('*'|'/') ws Factor ws`. Yields nothing
/// when the text does not begin with one.
pub open spec fn term_link(s: Seq<char>) -> Option<(Seq<char>, (Operator, FactorView))>
    decreases s.len(), 0nat,
{
    let at = trim(s);
    if starts_with(at, '*') || starts_with(at, '/') {
        let op = if at[0] == '*' {
            Operator::MultOp
        } else {
            Operator::DivOp
        };
        proof {
            lemma_run_len_bounded(CharClass::Blank, s);
            lemma_run_len_bounded(CharClass::Blank, at.skip(1));
        }
        match factor_rule(trim(at.skip(1))) {
            Ok((rest, right)) => Some((trim(rest), (op, right))),
            Err(_) => None,
        }
    } else {
        None
    }
}

/// The chain of a term: as many links as the text begins with. Yields the
/// text after the last of them and the links in order. A link always leaves
/// less than it was given ([`lemma_term_link_reads`]); the comparison of the
/// lengths is there to show that the definition is well founded.
pub open spec fn term_links(s: Seq<char>) -> (Seq<char>, Seq<(Operator, FactorView)>)
    decreases s.len(), 1nat,
{
    match term_link(s) {
        Some((rest, link)) => {
            if rest.len() < s.len() {
                let (end, more) = term_links(rest);
                (end, seq![link] + more)
            } else {
                (s, Seq::empty())
            }
        },
        None => (s, Seq::empty()),
    }
}

/// `Term := Factor ( ws ('*'|'/') ws Factor ws )*`. A factor always leaves
/// less than it was given ([`lemma_factor_reads`]); the comparison of the
/// lengths is there to show that the definition is well founded.
pub open spec fn term_rule(s: Seq<char>) -> Parsed<TermView>
    decreases s.len(), 2nat,
{
    match factor_rule(s) {
        Err(f) => Err(f.within(Rule::Term, 0)),
        Ok((rest, left)) => {
            if rest.len() < s.len() {
                let (end, links) = term_links(rest);
                Ok((end, TermView { left, rest: links }))
            } else {
                Ok((rest, TermView { left, rest: Seq::empty() }))
            }
        },
    }
}

/// One link of an expression's chain: `ws ('+'|'-') ws Term`. Yields nothing
/// when the text does not begin with one.
pub open spec fn expr_link(s: Seq<char>) -> Option<(Seq<char>, (Operator, TermView))>
    decreases s.len(), 0nat,
{
    let at = trim(s);
    if starts_with(at, '+') || starts_with(at, '-') {
        let op = if at[0] == '+' {
            Operator::AddOp
        } else {
            Operator::SubOp
        };
        proof {
            lemma_run_len_bounded(CharClass::Blank, s);
            lemma_run_len_bounded(CharClass::Blank, at.skip(1));
        }
        match term_rule(trim(at.skip(1))) {
            Ok((rest, right)) => Some((rest, (op, right))),
            Err(_) => None,
        }
    } else {
        None
    }
}

/// The chain of an expression: as many links as the text begins with. As in
/// [`term_links`], the comparison of the lengths always holds
/// ([`lemma_expr_link_reads`]).
pub open spec fn expr_links(s: Seq<char>) -> (Seq<char>, Seq<(Operator, TermView)>)
    decreases s.len(), 1nat,
{
    match expr_link(s) {
        Some((rest, link)) => {
            if rest.len() < s.len() {
                let (end, more) = expr_links(rest);
                (end, seq![link] + more)
            } else {
                (s, Seq::empty())
            }
        },
        None => (s, Seq::empty()),
    }
}

/// `Expr := ws Term ( ws ('+'|'-') ws Term )*`. As in [`term_rule`], the
/// comparison of the lengths always holds ([`lemma_term_reads`]).
pub open spec fn expr_rule(s: Seq<char>) -> Parsed<ExprView>
    decreases s.len(), 3nat,
{
    let k = run_len(CharClass::Blank, s);
    proof {
        lemma_run_len_bounded(CharClass::Blank, s);
    }
    match term_rule(trim(s)) {
        Err(f) => Err(f.within(Rule::Expression, k)),
        Ok((rest, left)) => {
            if rest.len() < s.len() {
                let (end, links) = expr_links(rest);
                Ok((end, ExprView { left, rest: links }))
            } else {
                Ok((rest, ExprView { left, rest: Seq::empty() }))
            }
        },
    }
}

/// Whether `rest` is what is left of `s` after some of its front was read.
pub open spec fn is_tail(rest: Seq<char>, s: Seq<char>) -> bool {
    rest.len() <= s.len() && rest == s.skip(s.len() - rest.len())
}

/// Whether `r` is a result that a rule can have on `s`: on success a
/// non-empty front of `s` was read, and a failure lies inside `s`.
pub open spec fn reads<V>(s: Seq<char>, r: Parsed<V>) -> bool {
    match r {
        Ok((rest, _)) => is_tail(rest, s) && rest.len() < s.len(),
        Err(f) => f.position <= s.len(),
    }
}

/// What is left of what is left of a text is left of the text.
pub proof fn lemma_tail_of_tail(a: Seq<char>, b: Seq<char>, c: Seq<char>)
    requires
        is_tail(a, b),
        is_tail(b, c),
    ensures
        is_tail(a, c),
{
    assert(a =~= c.skip(c.len() - a.len()));
}

/// Dropping a front of a text leaves a tail of it.
pub proof fn lemma_skip_is_tail(s: Seq<char>, k: int)
    requires
        0 <= k <= s.len(),
    ensures
        is_tail(s.skip(k), s),
        s.skip(k).len() == s.len() - k,
{
}

/// Trimming a text leaves a tail of it.
pub proof fn lemma_trim_is_tail(s: Seq<char>)
    ensures
        is_tail(trim(s), s),
        trim(s).len() == s.len() - run_len(CharClass::Blank, s),
{
    lemma_run_len_bounded(CharClass::Blank, s);
}

/// The rules of the literals and of the identifier read a non-empty front of
/// the text, or fail inside it.
pub proof fn lemma_leaf_rules_read(s: Seq<char>)
    ensures
        reads(s, identifier_rule(s)),
        reads(s, integer_rule(s)),
        reads(s, float_rule(s)),
{
    lemma_run_len_bounded(CharClass::Alpha, s);
    let k = sign_len(s);
    let body = s.skip(k as int);
    lemma_run_len_bounded(CharClass::Digit, body);
    let n = run_len(CharClass::Digit, body);
    lemma_skip_is_tail(s, k as int);
    lemma_skip_is_tail(body, n as int);
    lemma_tail_of_tail(body.skip(n as int), body, s);
    if n > 0 {
        let point = body.skip(n as int);
        if starts_with(point, '.') {
            let tail = point.skip(1);
            lemma_run_len_bounded(CharClass::Digit, tail);
            let m = run_len(CharClass::Digit, tail);
            lemma_skip_is_tail(point, 1);
            lemma_skip_is_tail(tail, m as int);
            lemma_tail_of_tail(tail, point, s);
            lemma_tail_of_tail(tail.skip(m as int), tail, s);
        }
    }
}

/// A parenthesized expression reads a non-empty front of the text, or fails
/// inside it.
pub proof fn lemma_paren_reads(s: Seq<char>)
    ensures
        reads(s, paren_rule(s)),
    decreases s.len(), 0nat,
{
    if starts_with(s, '(') {
        let inner = s.skip(1);
        lemma_skip_is_tail(s, 1);
        lemma_expr_reads(inner);
        match expr_rule(inner) {
            Err(f) => {},
            Ok((rest, e)) => {
                let close = trim(rest);
                lemma_trim_is_tail(rest);
                lemma_tail_of_tail(close, rest, inner);
                lemma_tail_of_tail(close, inner, s);
                if starts_with(close, ')') {
                    lemma_skip_is_tail(close, 1);
                    lemma_tail_of_tail(close.skip(1), close, s);
                }
            },
        }
    }
}

/// A factor reads a non-empty front of the text, or fails inside it.
pub proof fn lemma_factor_reads(s: Seq<char>)
    ensures
        reads(s, factor_rule(s)),
    decreases s.len(), 1nat,
{
    lemma_leaf_rules_read(s);
    lemma_paren_reads(s);
}

/// A link of a term's chain reads a non-empty front of the text.
pub proof fn lemma_term_link_reads(s: Seq<char>)
    ensures
        match term_link(s) {
            Some((rest, _)) => is_tail(rest, s) && rest.len() < s.len(),
            None => true,
        },
    decreases s.len(), 0nat,
{
    let at = trim(s);
    lemma_trim_is_tail(s);
    if starts_with(at, '*') || starts_with(at, '/') {
        let after = at.skip(1);
        lemma_skip_is_tail(at, 1);
        lemma_trim_is_tail(after);
        let operand = trim(after);
        lemma_tail_of_tail(after, at, s);
        lemma_tail_of_tail(operand, after, s);
        lemma_factor_reads(operand);
        match factor_rule(operand) {
            Ok((rest, right)) => {
                lemma_trim_is_tail(rest);
                lemma_tail_of_tail(rest, operand, s);
                lemma_tail_of_tail(trim(rest), rest, s);
            },
            Err(_) => {},
        }
    }
}

/// The chain of a term ends at a tail of the text.
pub proof fn lemma_term_links_read(s: Seq<char>)
    ensures
        is_tail(term_links(s).0, s),
    decreases s.len(), 1nat,
{
    lemma_term_link_reads(s);
    match term_link(s) {
        Some((rest, link)) => {
            lemma_term_links_read(rest);
            lemma_tail_of_tail(term_links(rest).0, rest, s);
        },
        None => {
            assert(s =~= s.skip(0));
        },
    }
}

/// A term reads a non-empty front of the text, or fails inside it.
pub proof fn lemma_term_reads(s: Seq<char>)
    ensures
        reads(s, term_rule(s)),
    decreases s.len(), 2nat,
{
    lemma_factor_reads(s);
    match factor_rule(s) {
        Err(f) => {},
        Ok((rest, left)) => {
            lemma_term_links_read(rest);
            lemma_tail_of_tail(term_links(rest).0, rest, s);
        },
    }
}

/// A link of an expression's chain reads a non-empty front of the text.
pub proof fn lemma_expr_link_reads(s: Seq<char>)
    ensures
        match expr_link(s) {
            Some((rest, _)) => is_tail(rest, s) && rest.len() < s.len(),
            None => true,
        },
    decreases s.len(), 0nat,
{
    let at = trim(s);
    lemma_trim_is_tail(s);
    if starts_with(at, '+') || starts_with(at, '-') {
        let after = at.skip(1);
        lemma_skip_is_tail(at, 1);
        lemma_trim_is_tail(after);
        let operand = trim(after);
        lemma_tail_of_tail(after, at, s);
        lemma_tail_of_tail(operand, after, s);
        lemma_term_reads(operand);
        match term_rule(operand) {
            Ok((rest, right)) => {
                lemma_tail_of_tail(rest, operand, s);
            },
            Err(_) => {},
        }
    }
}

/// The chain of an expression ends at a tail of the text.
pub proof fn lemma_expr_links_read(s: Seq<char>)
    ensures
        is_tail(expr_links(s).0, s),
    decreases s.len(), 1nat,
{
    lemma_expr_link_reads(s);
    match expr_link(s) {
        Some((rest, link)) => {
            lemma_expr_links_read(rest);
            lemma_tail_of_tail(expr_links(rest).0, rest, s);
        },
        None => {
            assert(s =~= s.skip(0));
        },
    }
}

/// An expression reads a non-empty front of the text, or fails inside it.
pub proof fn lemma_expr_reads(s: Seq<char>)
    ensures
        reads(s, expr_rule(s)),
    decreases s.len(), 3nat,
{
    let inner = trim(s);
    lemma_trim_is_tail(s);
    lemma_term_reads(inner);
    match term_rule(inner) {
        Err(f) => {},
        Ok((rest, left)) => {
            lemma_tail_of_tail(rest, inner, s);
            lemma_expr_links_read(rest);
            lemma_tail_of_tail(expr_links(rest).0, rest, s);
        },
    }
}

/// Length of the line break that `s` begins with: 2 for a carriage return
/// and a line feed, 1 for a line feed alone, 0 when there is none.
pub open spec fn line_break_len(s: Seq<char>) -> nat {
    if s.len() >= 2 && s[0] == '\r' && s[1] == '\n' {
        2
    } else if starts_with(s, '\n') {
        1
    } else {
        0
    }
}

/// Where the next statement may begin: `s` without its leading white space
/// and without the line break that may follow it.
pub open spec fn next_line(s: Seq<char>) -> Seq<char> {
    trim(s).skip(line_break_len(trim(s)) as int)
}

/// What is left after the white space and the line break between two
/// statements is a tail of the text.
pub proof fn lemma_next_line_is_tail(s: Seq<char>)
    ensures
        is_tail(next_line(s), s),
{
    lemma_trim_is_tail(s);
    lemma_skip_is_tail(trim(s), line_break_len(trim(s)) as int);
    lemma_tail_of_tail(next_line(s), trim(s), s);
}

/// The statements after the first: `( ws newline? Expr )*`. Yields the text
/// after the last of them and the expressions in order. As in
/// [`term_links`], the comparison of the lengths always holds
/// ([`lemma_expr_reads`]).
pub open spec fn program_tail(s: Seq<char>) -> (Seq<char>, Seq<ExprView>)
    decreases s.len(),
{
    match expr_rule(next_line(s)) {
        Ok((rest, statement)) => {
            if rest.len() < s.len() {
                let (end, more) = program_tail(rest);
                (end, seq![statement] + more)
            } else {
                (s, Seq::empty())
            }
        },
        Err(_) => (s, Seq::empty()),
    }
}

/// `Program := Expr ( ws newline? Expr )*`
pub open spec fn program_rule(s: Seq<char>) -> Parsed<Seq<ExprView>> {
    match expr_rule(s) {
        Err(f) => Err(f.within(Rule::Expression, 0)),
        Ok((rest, first)) => {
            let (end, more) = program_tail(rest);
            Ok((end, seq![first] + more))
        },
    }
}

/// The statements after the first end at a tail of the text.
pub proof fn lemma_program_tail_reads(s: Seq<char>)
    ensures
        is_tail(program_tail(s).0, s),
    decreases s.len(),
{
    lemma_next_line_is_tail(s);
    lemma_expr_reads(next_line(s));
    match expr_rule(next_line(s)) {
        Ok((rest, statement)) => {
            lemma_tail_of_tail(rest, next_line(s), s);
            lemma_program_tail_reads(rest);
            lemma_tail_of_tail(program_tail(rest).0, rest, s);
        },
        Err(_) => {
            assert(s =~= s.skip(0));
        },
    }
}

/// A program reads a non-empty front of the text, or fails inside it.
pub proof fn lemma_program_reads(s: Seq<char>)
    ensures
        reads(s, program_rule(s)),
{
    lemma_expr_reads(s);
    match expr_rule(s) {
        Err(f) => {},
        Ok((rest, first)) => {
            lemma_program_tail_reads(rest);
            lemma_tail_of_tail(program_tail(rest).0, rest, s);
        },
    }
}

/// The rules as the grammar writes them, without the comparisons of lengths
/// that their definitions carry: after the leftmost operand comes the whole
/// chain, and after each link the rest of the chain.
pub proof fn lemma_rules_unfold(s: Seq<char>)
    ensures
        term_links(s) == match term_link(s) {
            Some((rest, link)) => (term_links(rest).0, seq![link] + term_links(rest).1),
            None => (s, Seq::empty()),
        },
        term_rule(s) == match factor_rule(s) {
            Err(f) => Err(f.within(Rule::Term, 0)),
            Ok((rest, left)) => Ok(
                (term_links(rest).0, TermView { left, rest: term_links(rest).1 }),
            ),
        },
        expr_links(s) == match expr_link(s) {
            Some((rest, link)) => (expr_links(rest).0, seq![link] + expr_links(rest).1),
            None => (s, Seq::empty()),
        },
        expr_rule(s) == match term_rule(trim(s)) {
            Err(f) => Err(f.within(Rule::Expression, run_len(CharClass::Blank, s))),
            Ok((rest, left)) => Ok(
                (expr_links(rest).0, ExprView { left, rest: expr_links(rest).1 }),
            ),
        },
        program_tail(s) == match expr_rule(next_line(s)) {
            Ok((rest, statement)) => (program_tail(rest).0, seq![statement] + program_tail(rest).1),
            Err(_) => (s, Seq::empty()),
        },
{
    lemma_term_link_reads(s);
    lemma_factor_reads(s);
    lemma_expr_link_reads(s);
    lemma_trim_is_tail(s);
    lemma_term_reads(trim(s));
    lemma_next_line_is_tail(s);
    lemma_expr_reads(next_line(s));
}

} // verus!
