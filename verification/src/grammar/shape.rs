//! Which trees the parser builds: the chain of a term holds only `*` and `/`,
//! the chain of an expression only `+` and `-`, and every leaf is written as
//! its rule demands.

use vstd::prelude::*;
use crate::grammar::expression::ExprView;
use crate::grammar::factor::{DecimalView, FactorView};
use crate::grammar::syntax::{
    expr_link, expr_links, expr_rule, factor_rule, float_rule, identifier_rule, integer_rule,
    lemma_expr_link_reads, lemma_term_link_reads, next_line, program_rule, program_tail,
    sign_len, term_link, term_links, term_rule, trim,
};
use crate::grammar::term::TermView;
use crate::number::{all_digits, lemma_digit_run_all_digits};
use crate::parse::Failure;
use crate::scan::{lemma_run_len_bounded, lemma_run_len_maximal, run_len, CharClass};

verus! {

/// Whether `s` is a non-empty run of letters.
pub open spec fn is_name(s: Seq<char>) -> bool {
    s.len() > 0 && forall|i: int| 0 <= i < s.len() ==> CharClass::Alpha.has(#[trigger] s[i])
}

impl DecimalView {
    /// Digits, at least one, on both sides of the point.
    pub open spec fn wf(self) -> bool {
        &&& self.whole.len() > 0
        &&& all_digits(self.whole)
        &&& self.fraction.len() > 0
        &&& all_digits(self.fraction)
    }
}

/// Whether a factor is one that the grammar can yield.
pub open spec fn factor_wf(f: FactorView) -> bool
    decreases f, 0nat,
{
    match f {
        FactorView::Integer(value) => value > i64::MIN,
        FactorView::Float(d) => d.wf(),
        FactorView::Identifier(name) => is_name(name),
        FactorView::Expr(e) => expr_wf(*e),
    }
}

/// Whether a term is one that the grammar can yield: its factors are, and
/// every operator of its chain is `*` or `/`.
pub open spec fn term_wf(t: TermView) -> bool
    decreases t, 1nat,
{
    &&& factor_wf(t.left)
    &&& forall|i: int|
        0 <= i < t.rest.len() ==> (#[trigger] t.rest[i]).0.is_multiplicative() && factor_wf(
            t.rest[i].1,
        )
}

/// Whether an expression is one that the grammar can yield: its terms are,
/// and every operator of its chain is `+` or `-`.
pub open spec fn expr_wf(e: ExprView) -> bool
    decreases e, 2nat,
{
    &&& term_wf(e.left)
    &&& forall|i: int|
        0 <= i < e.rest.len() ==> (#[trigger] e.rest[i]).0.is_additive() && term_wf(e.rest[i].1)
}

/// The literals and the identifier that the grammar yields are well formed.
pub proof fn lemma_leaf_rules_wf(s: Seq<char>)
    ensures
        identifier_rule(s) matches Ok((_, f)) ==> factor_wf(f),
        integer_rule(s) matches Ok((_, f)) ==> factor_wf(f),
        float_rule(s) matches Ok((_, f)) ==> factor_wf(f),
{
    lemma_run_len_maximal(CharClass::Alpha, s);
    lemma_run_len_bounded(CharClass::Alpha, s);
    let body = s.skip(sign_len(s) as int);
    lemma_digit_run_all_digits(body);
    lemma_run_len_bounded(CharClass::Digit, body);
    let n = run_len(CharClass::Digit, body);
    if n > 0 {
        let tail = body.skip(n as int).skip(1);
        lemma_digit_run_all_digits(tail);
        lemma_run_len_bounded(CharClass::Digit, tail);
    }
}

/// A factor that the grammar yields is well formed.
pub proof fn lemma_factor_rule_wf(s: Seq<char>)
    ensures
        factor_rule(s) matches Ok((_, f)) ==> factor_wf(f),
    decreases s.len(), 1nat,
{
    lemma_leaf_rules_wf(s);
    if s.len() > 0 {
        lemma_expr_rule_wf(s.skip(1));
    }
}

/// The links that the grammar yields for a term's chain hold `*` or `/` and
/// well-formed factors.
pub proof fn lemma_term_links_wf(s: Seq<char>)
    ensures
        forall|i: int|
            0 <= i < term_links(s).1.len() ==> (#[trigger] term_links(s).1[i]).0.is_multiplicative()
                && factor_wf(term_links(s).1[i].1),
    decreases s.len(), 1nat,
{
    lemma_term_link_reads(s);
    match term_link(s) {
        Some((rest, link)) => {
            lemma_term_links_wf(rest);
            let at = trim(s);
            let operand = trim(at.skip(1));
            lemma_run_len_bounded(CharClass::Blank, s);
            lemma_run_len_bounded(CharClass::Blank, at.skip(1));
            lemma_factor_rule_wf(operand);
            let more = term_links(rest).1;
            let all = term_links(s).1;
            assert(all == seq![link] + more);
            assert forall|i: int| 0 <= i < all.len() implies (#[trigger] all[i]).0.is_multiplicative()
                && factor_wf(all[i].1) by {
                if i > 0 {
                    assert(all[i] == more[i - 1]);
                }
            }
        },
        None => {},
    }
}

/// A term that the grammar yields is well formed.
pub proof fn lemma_term_rule_wf(s: Seq<char>)
    ensures
        term_rule(s) matches Ok((_, t)) ==> term_wf(t),
    decreases s.len(), 2nat,
{
    lemma_factor_rule_wf(s);
    match factor_rule(s) {
        Ok((rest, left)) => {
            if rest.len() < s.len() {
                lemma_term_links_wf(rest);
                let links = term_links(rest).1;
                let t = TermView { left, rest: links };
                assert(term_rule(s) == Ok::<_, Failure>((term_links(rest).0, t)));
                assert forall|i: int| 0 <= i < t.rest.len() implies (#[trigger] t.rest[i]).0.is_multiplicative()
                    && factor_wf(t.rest[i].1) by {
                    assert(t.rest[i] == term_links(rest).1[i]);
                }
                assert(term_wf(t));
            } else {
                assert(term_wf(TermView { left, rest: Seq::empty() }));
            }
        },
        Err(_) => {},
    }
}

/// The links that the grammar yields for an expression's chain hold `+` or
/// `-` and well-formed terms.
pub proof fn lemma_expr_links_wf(s: Seq<char>)
    ensures
        forall|i: int|
            0 <= i < expr_links(s).1.len() ==> (#[trigger] expr_links(s).1[i]).0.is_additive()
                && term_wf(expr_links(s).1[i].1),
    decreases s.len(), 1nat,
{
    lemma_expr_link_reads(s);
    match expr_link(s) {
        Some((rest, link)) => {
            lemma_expr_links_wf(rest);
            let at = trim(s);
            let operand = trim(at.skip(1));
            lemma_run_len_bounded(CharClass::Blank, s);
            lemma_run_len_bounded(CharClass::Blank, at.skip(1));
            lemma_term_rule_wf(operand);
            let more = expr_links(rest).1;
            let all = expr_links(s).1;
            assert(all == seq![link] + more);
            assert forall|i: int| 0 <= i < all.len() implies (#[trigger] all[i]).0.is_additive()
                && term_wf(all[i].1) by {
                if i > 0 {
                    assert(all[i] == more[i - 1]);
                }
            }
        },
        None => {},
    }
}

/// An expression that the grammar yields is well formed: the chains of its
/// terms hold only `*` and `/`, its own chain and those of the expressions
/// inside it only `+` and `-`.
pub proof fn lemma_expr_rule_wf(s: Seq<char>)
    ensures
        expr_rule(s) matches Ok((_, e)) ==> expr_wf(e),
    decreases s.len(), 3nat,
{
    let inner = trim(s);
    lemma_run_len_bounded(CharClass::Blank, s);
    lemma_term_rule_wf(inner);
    match term_rule(inner) {
        Ok((rest, left)) => {
            if rest.len() < s.len() {
                lemma_expr_links_wf(rest);
                let links = expr_links(rest).1;
                let e = ExprView { left, rest: links };
                assert(expr_rule(s) == Ok::<_, Failure>((expr_links(rest).0, e)));
                assert forall|i: int| 0 <= i < e.rest.len() implies (#[trigger] e.rest[i]).0.is_additive()
                    && term_wf(e.rest[i].1) by {
                    assert(e.rest[i] == expr_links(rest).1[i]);
                }
                assert(expr_wf(e));
            } else {
                assert(expr_wf(ExprView { left, rest: Seq::empty() }));
            }
        },
        Err(_) => {},
    }
}

/// The statements that the grammar yields after the first are well formed.
pub proof fn lemma_program_tail_wf(s: Seq<char>)
    ensures
        forall|i: int| 0 <= i < program_tail(s).1.len() ==> expr_wf(#[trigger] program_tail(s).1[i]),
    decreases s.len(),
{
    lemma_expr_rule_wf(next_line(s));
    match expr_rule(next_line(s)) {
        Ok((rest, statement)) => {
            if rest.len() < s.len() {
                lemma_program_tail_wf(rest);
                let more = program_tail(rest).1;
                let all = program_tail(s).1;
                assert(all == seq![statement] + more);
                assert forall|i: int| 0 <= i < all.len() implies expr_wf(#[trigger] all[i]) by {
                    if i > 0 {
                        assert(all[i] == more[i - 1]);
                    }
                }
            }
        },
        Err(_) => {},
    }
}

/// Every statement of a program that the grammar yields is well formed, and
/// there is at least one.
pub proof fn lemma_program_rule_wf(s: Seq<char>)
    ensures
        program_rule(s) matches Ok((_, p)) ==> p.len() > 0 && forall|i: int|
            0 <= i < p.len() ==> expr_wf(#[trigger] p[i]),
{
    lemma_expr_rule_wf(s);
    match expr_rule(s) {
        Ok((rest, first)) => {
            lemma_program_tail_wf(rest);
            let more = program_tail(rest).1;
            let all = seq![first] + more;
            assert forall|i: int| 0 <= i < all.len() implies expr_wf(#[trigger] all[i]) by {
                if i > 0 {
                    assert(all[i] == more[i - 1]);
                }
            }
        },
        Err(_) => {},
    }
}

} // verus!
