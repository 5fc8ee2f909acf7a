//! Character classes of the source language and the scanning primitives that
//! split a run of such characters, or a fixed token, off the front of a string.

use vstd::prelude::*;

verus! {

/// The three character classes the grammar is built from.
pub ghost enum CharClass {
    /// `0` to `9`.
    Digit,
    /// `a` to `z` and `A` to `Z`.
    Alpha,
    /// Space and tab.
    Blank,
}

impl CharClass {
    /// Whether `c` belongs to the class.
    pub open spec fn has(self, c: char) -> bool {
        match self {
            CharClass::Digit => '0' <= c && c <= '9',
            CharClass::Alpha => ('a' <= c && c <= 'z') || ('A' <= c && c <= 'Z'),
            CharClass::Blank => c == ' ' || c == '\t',
        }
    }
}

/// Length of the longest prefix of `s` made of characters of `class` only.
pub open spec fn run_len(class: CharClass, s: Seq<char>) -> nat
    decreases s.len(),
{
    if s.len() > 0 && class.has(s[0]) {
        1 + run_len(class, s.skip(1))
    } else {
        0
    }
}

/// A run never extends past the end of the text.
pub proof fn lemma_run_len_bounded(class: CharClass, s: Seq<char>)
    ensures
        run_len(class, s) <= s.len(),
    decreases s.len(),
{
    if s.len() > 0 && class.has(s[0]) {
        lemma_run_len_bounded(class, s.skip(1));
    }
}

/// Every character inside the run is of the class, and the one just after it,
/// if there is one, is not.
pub proof fn lemma_run_len_maximal(class: CharClass, s: Seq<char>)
    ensures
        forall|i: int| 0 <= i < run_len(class, s) ==> class.has(#[trigger] s[i]),
        run_len(class, s) < s.len() ==> !class.has(s[run_len(class, s) as int]),
    decreases s.len(),
{
    if s.len() > 0 && class.has(s[0]) {
        let t = s.skip(1);
        lemma_run_len_maximal(class, t);
        lemma_run_len_bounded(class, t);
        assert forall|i: int| 0 <= i < run_len(class, s) implies class.has(#[trigger] s[i]) by {
            if i > 0 {
                assert(s[i] == t[i - 1]);
            }
        }
        if run_len(class, s) < s.len() {
            assert(s[run_len(class, s) as int] == t[run_len(class, t) as int]);
        }
    }
}

/// `nom::character::complete::digit1` on a string slice. It splits the longest
/// prefix of ASCII digits off `input` and hands back what follows it and the
/// prefix, in that order; it fails when that prefix is empty.
#[verifier::external_body]
pub(crate) fn digit_run<'a>(input: &'a str) -> (r: Option<(&'a str, &'a str)>)
    ensures
        match r {
            Some((rest, run)) => {
                &&& run_len(CharClass::Digit, input@) > 0
                &&& run@ == input@.take(run_len(CharClass::Digit, input@) as int)
                &&& rest@ == input@.skip(run_len(CharClass::Digit, input@) as int)
            },
            None => run_len(CharClass::Digit, input@) == 0,
        },
{
    nom::character::complete::digit1::<&str, nom::error::Error<&str>>(input).ok()
}

/// `nom::character::complete::alpha1` on a string slice. It splits the longest
/// prefix of ASCII letters off `input` and hands back what follows it and the
/// prefix, in that order; it fails when that prefix is empty.
#[verifier::external_body]
pub(crate) fn alpha_run<'a>(input: &'a str) -> (r: Option<(&'a str, &'a str)>)
    ensures
        match r {
            Some((rest, run)) => {
                &&& run_len(CharClass::Alpha, input@) > 0
                &&& run@ == input@.take(run_len(CharClass::Alpha, input@) as int)
                &&& rest@ == input@.skip(run_len(CharClass::Alpha, input@) as int)
            },
            None => run_len(CharClass::Alpha, input@) == 0,
        },
{
    nom::character::complete::alpha1::<&str, nom::error::Error<&str>>(input).ok()
}

/// `nom::character::complete::space0` on a string slice. It drops the longest
/// prefix of spaces and tabs, which may be empty, and never fails on a string
/// slice.
#[verifier::external_body]
pub(crate) fn skip_blanks<'a>(input: &'a str) -> (rest: &'a str)
    ensures
        rest@ == input@.skip(run_len(CharClass::Blank, input@) as int),
{
    match nom::character::complete::space0::<&str, nom::error::Error<&str>>(input) {
        Ok((rest, _)) => rest,
        Err(_) => input,
    }
}

/// `nom::bytes::complete::tag` on string slices. It succeeds exactly when
/// `input` begins with `token`, and then hands back what follows the token.
#[verifier::external_body]
pub(crate) fn strip_token<'a>(input: &'a str, token: &str) -> (r: Option<&'a str>)
    ensures
        match r {
            Some(rest) => token@.is_prefix_of(input@) && rest@ == input@.skip(token@.len() as int),
            None => !token@.is_prefix_of(input@),
        },
{
    match nom::bytes::complete::tag::<&str, &str, nom::error::Error<&str>>(token)(input) {
        Ok((rest, _)) => Some(rest),
        Err(_) => None,
    }
}

} // verus!
