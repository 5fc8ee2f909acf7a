//! Reading back what the library writes: the text of an operator reads as
//! that operator, and the decimal notation of an integer, as the load
//! instruction writes it, reads as that integer.

use vstd::prelude::*;
use crate::grammar::factor::FactorView;
use crate::grammar::operator::Operator;
use crate::grammar::syntax::{any_operator_rule, integer_rule, sign_len};
use crate::number::{decimal, lemma_decimal_round_trip, signed_decimal};
use crate::parse::Failure;
use crate::scan::{run_len, CharClass};

verus! {

/// A text made of characters of one class is one run of that class.
pub proof fn lemma_run_len_whole(class: CharClass, s: Seq<char>)
    requires
        forall|i: int| 0 <= i < s.len() ==> class.has(#[trigger] s[i]),
    ensures
        run_len(class, s) == s.len(),
    decreases s.len(),
{
    if s.len() > 0 {
        let t = s.skip(1);
        assert forall|i: int| 0 <= i < t.len() implies class.has(#[trigger] t[i]) by {
            assert(t[i] == s[i + 1]);
        }
        lemma_run_len_whole(class, t);
    }
}

/// The text that writes an operator reads as that operator, with nothing
/// left over.
pub proof fn lemma_operator_reads_back(op: Operator)
    ensures
        any_operator_rule(seq![op.symbol()]) == Ok::<_, Failure>(
            (Seq::<char>::empty(), op),
        ),
{
    let s = seq![op.symbol()];
    assert(s.skip(1) =~= Seq::<char>::empty());
}

/// The decimal notation of an integer other than `i64::MIN` reads as that
/// integer, with nothing left over.
pub proof fn lemma_integer_reads_back(n: i64)
    requires
        n > i64::MIN,
    ensures
        integer_rule(signed_decimal(n as int)) == Ok::<_, Failure>(
            (Seq::<char>::empty(), FactorView::Integer(n)),
        ),
{
    let s = signed_decimal(n as int);
    let magnitude: nat = if n < 0 {
        (-n) as nat
    } else {
        n as nat
    };
    let digits = decimal(magnitude);
    lemma_decimal_round_trip(magnitude);
    lemma_run_len_whole(CharClass::Digit, digits);
    if n < 0 {
        assert(s[0] == '-');
        assert(s.skip(1) =~= digits);
    } else {
        assert(CharClass::Digit.has(digits[0]));
        assert(sign_len(s) == 0);
        assert(s.skip(0) =~= digits);
    }
    let body = s.skip(sign_len(s) as int);
    assert(body == digits);
    assert(body.take(digits.len() as int) =~= digits);
    assert(body.skip(digits.len() as int) =~= Seq::<char>::empty());
}

} // verus!
