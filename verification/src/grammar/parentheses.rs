//! Parentheses around an expression: a text without parentheses that reads
//! as an expression reads, between parentheses, as the factor that holds
//! that expression.

use vstd::prelude::*;
use crate::grammar::expression::ExprView;
use crate::grammar::factor::FactorView;
use crate::grammar::syntax::{
    expr_link, expr_links, expr_rule, factor_rule, float_rule, identifier_rule, integer_rule,
    is_tail, lemma_expr_link_reads, lemma_factor_reads, lemma_skip_is_tail,
    lemma_expr_reads, lemma_term_link_reads, lemma_term_reads, lemma_trim_is_tail, paren_rule,
    sign_len,
    starts_with, term_link, term_links, term_rule, trim,
};
use crate::parse::{Failure, Parsed};
use crate::scan::{lemma_run_len_bounded, run_len, CharClass};

verus! {

/// Whether `s` holds no parenthesis.
pub open spec fn no_parens(s: Seq<char>) -> bool {
    forall|i: int| 0 <= i < s.len() ==> #[trigger] s[i] != '(' && s[i] != ')'
}

/// What a rule yields on a text that a closing parenthesis follows, if `r` is
/// what it yields on the text alone and the parenthesis stays unread.
pub open spec fn before_close<V>(r: Parsed<V>) -> Parsed<V> {
    match r {
        Ok((rest, node)) => Ok((rest.push(')'), node)),
        Err(f) => Err(f),
    }
}

/// What is left of a text without parentheses holds none.
pub proof fn lemma_tail_has_no_parens(rest: Seq<char>, s: Seq<char>)
    requires
        no_parens(s),
        is_tail(rest, s),
    ensures
        no_parens(rest),
{
    assert forall|i: int| 0 <= i < rest.len() implies #[trigger] rest[i] != '(' && rest[i]
        != ')' by {
        assert(rest[i] == s[s.len() - rest.len() + i]);
    }
}

/// Dropping or taking a front of a text that a character follows.
pub proof fn lemma_push_skip(s: Seq<char>, c: char, k: int)
    requires
        0 <= k <= s.len(),
    ensures
        s.push(c).skip(k) == s.skip(k).push(c),
        s.push(c).take(k) == s.take(k),
        no_parens(s) ==> no_parens(s.skip(k)),
{
    assert(s.push(c).skip(k) =~= s.skip(k).push(c));
    assert(s.push(c).take(k) =~= s.take(k));
    if no_parens(s) {
        lemma_skip_is_tail(s, k);
        lemma_tail_has_no_parens(s.skip(k), s);
    }
}

/// A closing parenthesis ends every run: the run at the front of a text is
/// as long when the parenthesis follows the text.
pub proof fn lemma_run_before_close(class: CharClass, s: Seq<char>)
    requires
        no_parens(s),
    ensures
        run_len(class, s.push(')')) == run_len(class, s),
    decreases s.len(),
{
    if s.len() > 0 {
        lemma_push_skip(s, ')', 1);
        assert(s.push(')')[0] == s[0]);
        if class.has(s[0]) {
            lemma_run_before_close(class, s.skip(1));
        }
    } else {
        assert(s.push(')')[0] == ')');
    }
}

/// Trimming a text that a closing parenthesis follows trims the text.
pub proof fn lemma_trim_before_close(s: Seq<char>)
    requires
        no_parens(s),
    ensures
        trim(s.push(')')) == trim(s).push(')'),
        no_parens(trim(s)),
        is_tail(trim(s), s),
{
    lemma_run_before_close(CharClass::Blank, s);
    lemma_run_len_bounded(CharClass::Blank, s);
    lemma_push_skip(s, ')', run_len(CharClass::Blank, s) as int);
    lemma_trim_is_tail(s);
}

/// A text begins with a character other than `)` exactly when it does so
/// with a closing parenthesis behind it.
pub proof fn lemma_starts_before_close(s: Seq<char>, x: char)
    requires
        x != ')',
    ensures
        starts_with(s.push(')'), x) == starts_with(s, x),
{
    if s.len() > 0 {
        assert(s.push(')')[0] == s[0]);
    } else {
        assert(s.push(')')[0] == ')');
    }
}

/// The literals and the identifier read the same with a closing parenthesis
/// behind the text.
pub proof fn lemma_leaves_before_close(s: Seq<char>)
    requires
        no_parens(s),
    ensures
        identifier_rule(s.push(')')) == before_close(identifier_rule(s)),
        integer_rule(s.push(')')) == before_close(integer_rule(s)),
        float_rule(s.push(')')) == before_close(float_rule(s)),
{
    let closed = s.push(')');
    lemma_run_before_close(CharClass::Alpha, s);
    lemma_run_len_bounded(CharClass::Alpha, s);
    lemma_push_skip(s, ')', run_len(CharClass::Alpha, s) as int);
    lemma_starts_before_close(s, '-');
    let k = sign_len(s);
    lemma_push_skip(s, ')', k as int);
    let body = s.skip(k as int);
    lemma_run_before_close(CharClass::Digit, body);
    lemma_run_len_bounded(CharClass::Digit, body);
    let n = run_len(CharClass::Digit, body);
    lemma_push_skip(body, ')', n as int);
    let point = body.skip(n as int);
    lemma_starts_before_close(point, '.');
    if starts_with(point, '.') {
        lemma_push_skip(point, ')', 1);
        let tail = point.skip(1);
        lemma_run_before_close(CharClass::Digit, tail);
        lemma_run_len_bounded(CharClass::Digit, tail);
        lemma_push_skip(tail, ')', run_len(CharClass::Digit, tail) as int);
    }
}

/// A factor without parentheses reads the same with a closing parenthesis
/// behind the text.
pub proof fn lemma_factor_before_close(s: Seq<char>)
    requires
        no_parens(s),
    ensures
        factor_rule(s.push(')')) == before_close(factor_rule(s)),
{
    lemma_leaves_before_close(s);
    lemma_starts_before_close(s, '(');
    if s.len() > 0 {
        assert(s[0] != '(');
    }
    assert(!starts_with(s, '('));
}

/// A link of a term's chain reads the same with a closing parenthesis behind
/// the text.
pub proof fn lemma_term_link_before_close(s: Seq<char>)
    requires
        no_parens(s),
    ensures
        term_link(s.push(')')) == match term_link(s) {
            Some((rest, link)) => Some((rest.push(')'), link)),
            None => None,
        },
{
    lemma_trim_before_close(s);
    let at = trim(s);
    lemma_starts_before_close(at, '*');
    lemma_starts_before_close(at, '/');
    if starts_with(at, '*') || starts_with(at, '/') {
        assert(at.push(')')[0] == at[0]);
        lemma_push_skip(at, ')', 1);
        let after = at.skip(1);
        lemma_trim_before_close(after);
        let operand = trim(after);
        lemma_factor_before_close(operand);
        lemma_factor_reads(operand);
        match factor_rule(operand) {
            Ok((rest, right)) => {
                lemma_tail_has_no_parens(rest, operand);
                lemma_trim_before_close(rest);
            },
            Err(_) => {},
        }
    }
}

/// The chain of a term reads the same with a closing parenthesis behind the
/// text.
pub proof fn lemma_term_links_before_close(s: Seq<char>)
    requires
        no_parens(s),
    ensures
        term_links(s.push(')')) == (term_links(s).0.push(')'), term_links(s).1),
        no_parens(term_links(s).0),
    decreases s.len(),
{
    lemma_term_link_before_close(s);
    lemma_term_link_reads(s);
    match term_link(s) {
        Some((rest, link)) => {
            lemma_tail_has_no_parens(rest, s);
            lemma_term_links_before_close(rest);
        },
        None => {},
    }
}

/// A term without parentheses reads the same with a closing parenthesis
/// behind the text.
pub proof fn lemma_term_before_close(s: Seq<char>)
    requires
        no_parens(s),
    ensures
        term_rule(s.push(')')) == before_close(term_rule(s)),
        term_rule(s) matches Ok((rest, _)) ==> no_parens(rest),
{
    lemma_factor_before_close(s);
    lemma_factor_reads(s);
    match factor_rule(s) {
        Ok((rest, left)) => {
            lemma_tail_has_no_parens(rest, s);
            lemma_term_links_before_close(rest);
        },
        Err(_) => {},
    }
}

/// A link of an expression's chain reads the same with a closing parenthesis
/// behind the text.
pub proof fn lemma_expr_link_before_close(s: Seq<char>)
    requires
        no_parens(s),
    ensures
        expr_link(s.push(')')) == match expr_link(s) {
            Some((rest, link)) => Some((rest.push(')'), link)),
            None => None,
        },
{
    lemma_trim_before_close(s);
    let at = trim(s);
    lemma_starts_before_close(at, '+');
    lemma_starts_before_close(at, '-');
    if starts_with(at, '+') || starts_with(at, '-') {
        assert(at.push(')')[0] == at[0]);
        lemma_push_skip(at, ')', 1);
        let after = at.skip(1);
        lemma_trim_before_close(after);
        lemma_term_before_close(trim(after));
    }
}

/// The chain of an expression reads the same with a closing parenthesis
/// behind the text.
pub proof fn lemma_expr_links_before_close(s: Seq<char>)
    requires
        no_parens(s),
    ensures
        expr_links(s.push(')')) == (expr_links(s).0.push(')'), expr_links(s).1),
    decreases s.len(),
{
    lemma_expr_link_before_close(s);
    lemma_expr_link_reads(s);
    match expr_link(s) {
        Some((rest, link)) => {
            lemma_tail_has_no_parens(rest, s);
            lemma_expr_links_before_close(rest);
        },
        None => {},
    }
}

/// An expression without parentheses reads the same with a closing
/// parenthesis behind the text.
pub proof fn lemma_expr_before_close(s: Seq<char>)
    requires
        no_parens(s),
    ensures
        expr_rule(s.push(')')) == before_close(expr_rule(s)),
{
    lemma_trim_before_close(s);
    lemma_run_before_close(CharClass::Blank, s);
    let inner = trim(s);
    lemma_term_before_close(inner);
    lemma_term_reads(inner);
    match term_rule(inner) {
        Ok((rest, left)) => {
            lemma_expr_links_before_close(rest);
        },
        Err(_) => {},
    }
}

/// A text without parentheses that reads as the expression `e`, with nothing
/// but white space left over, reads between parentheses as the factor that
/// holds `e`, with nothing left over. White space inside the parentheses
/// changes nothing.
pub proof fn lemma_parentheses_wrap(s: Seq<char>, rest: Seq<char>, e: ExprView)
    requires
        no_parens(s),
        expr_rule(s) == Ok::<_, Failure>((rest, e)),
        trim(rest).len() == 0,
    ensures
        factor_rule(seq!['('] + s + seq![')']) == Ok::<_, Failure>(
            (Seq::<char>::empty(), FactorView::Expr(Box::new(e))),
        ),
{
    let whole = seq!['('] + s + seq![')'];
    assert(whole[0] == '(');
    assert(whole.skip(0) =~= whole);
    assert(whole.skip(1) =~= s.push(')'));
    assert(sign_len(whole) == 0);
    lemma_expr_before_close(s);
    lemma_expr_reads(s);
    lemma_tail_has_no_parens(rest, s);
    lemma_trim_before_close(rest);
    let close = trim(rest.push(')'));
    assert(trim(rest) =~= Seq::<char>::empty());
    assert(close =~= seq![')']);
    assert(close.skip(1) =~= Seq::<char>::empty());
    assert(paren_rule(whole) == Ok::<_, Failure>(
        (Seq::<char>::empty(), FactorView::Expr(Box::new(e))),
    ));
}

} // verus!
