//! What a parser hands back: the node with the unread input, or a failure
//! that names the rules that were being tried and where the input stopped
//! matching.

use vstd::prelude::*;
use vstd::string::*;

verus! {

/// The rules of the grammar that a failure can name.
#[derive(Debug, PartialEq, Eq, Clone, Copy, Structural)]
pub enum Rule {
    Integer,
    Float,
    Identifier,
    ParenthesizedExpression,
    Factor,
    AddOperator,
    SubtractOperator,
    MultiplyOperator,
    DivideOperator,
    Operator,
    Term,
    Expression,
}

impl Rule {
    /// The name of the rule as it is shown to a reader.
    pub open spec fn label(self) -> Seq<char> {
        match self {
            Rule::Integer => "Integer"@,
            Rule::Float => "Float"@,
            Rule::Identifier => "Identifier"@,
            Rule::ParenthesizedExpression => "Parenthesized Expression"@,
            Rule::Factor => "Factor"@,
            Rule::AddOperator => "Add Operator"@,
            Rule::SubtractOperator => "Subtract Operator"@,
            Rule::MultiplyOperator => "Multiply Operator"@,
            Rule::DivideOperator => "Divide Operator"@,
            Rule::Operator => "Operator"@,
            Rule::Term => "Term"@,
            Rule::Expression => "Expression"@,
        }
    }

    /// The name of the rule as it is shown to a reader.
    pub fn name(&self) -> (r: &'static str)
        ensures
            r@ == self.label(),
    {
        match self {
            Rule::Integer => "Integer",
            Rule::Float => "Float",
            Rule::Identifier => "Identifier",
            Rule::ParenthesizedExpression => "Parenthesized Expression",
            Rule::Factor => "Factor",
            Rule::AddOperator => "Add Operator",
            Rule::SubtractOperator => "Subtract Operator",
            Rule::MultiplyOperator => "Multiply Operator",
            Rule::DivideOperator => "Divide Operator",
            Rule::Operator => "Operator",
            Rule::Term => "Term",
            Rule::Expression => "Expression",
        }
    }
}

/// The mathematical content of a [`ParseError`].
pub ghost struct Failure {
    /// The rules that were being tried, innermost first.
    pub stack: Seq<Rule>,
    /// How many characters of the input lie before the place where the
    /// innermost rule stopped matching.
    pub position: nat,
}

impl Failure {
    /// The failure of the single rule `rule` at `position`.
    pub open spec fn of(rule: Rule, position: nat) -> Failure {
        Failure { stack: seq![rule], position }
    }

    /// The same failure seen from the enclosing rule `rule`, whose input
    /// begins `offset` characters earlier.
    pub open spec fn within(self, rule: Rule, offset: nat) -> Failure {
        Failure { stack: self.stack.push(rule), position: self.position + offset }
    }
}

/// A failed parse.
#[derive(Debug, PartialEq, Eq)]
pub struct ParseError {
    /// The rules that were being tried, innermost first.
    pub context_stack: Vec<Rule>,
    /// How many characters of the input lie before the place where the
    /// innermost rule stopped matching.
    pub position: usize,
}

impl View for ParseError {
    type V = Failure;

    open spec fn view(&self) -> Failure {
        Failure { stack: self.context_stack@, position: self.position as nat }
    }
}

impl ParseError {
    /// The failure of the single rule `rule` at `position`.
    pub fn of(rule: Rule, position: usize) -> (e: ParseError)
        ensures
            e@ == Failure::of(rule, position as nat),
    {
        let mut context_stack: Vec<Rule> = Vec::new();
        context_stack.push(rule);
        let e = ParseError { context_stack, position };
        assert(e@.stack =~= seq![rule]);
        e
    }

    /// The same failure seen from the enclosing rule `rule`, whose input
    /// begins `offset` characters earlier.
    pub fn within(self, rule: Rule, offset: usize) -> (e: ParseError)
        requires
            self.position + offset <= usize::MAX,
        ensures
            e@ == self@.within(rule, offset as nat),
    {
        let mut context_stack = self.context_stack;
        context_stack.push(rule);
        ParseError { context_stack, position: self.position + offset }
    }
}

/// What a rule yields on a text: the unread rest of the text and the node,
/// or a failure.
pub type Parsed<V> = Result<(Seq<char>, V), Failure>;

/// What a parser hands back: the unread rest of the input and the node, or
/// an error.
pub type ParseResult<'a, T> = Result<(&'a str, T), ParseError>;

/// The mathematical content of a parser's result.
pub open spec fn outcome<T: View>(r: ParseResult<'_, T>) -> Parsed<T::V> {
    match r {
        Ok((rest, node)) => Ok((rest@, node@)),
        Err(e) => Err(e@),
    }
}

/// A node that can be read from the front of a text.
pub trait Parse<'a>: Sized + View {
    /// What the node's rule yields on `text`.
    spec fn syntax(text: Seq<char>) -> Parsed<Self::V>;

    /// Reads one node from the front of `input`.
    fn parse(input: &'a str) -> (r: ParseResult<'a, Self>)
        ensures
            outcome(r) == Self::syntax(input@),
    ;
}

/// How many characters of `input` lie before `rest`, which is what is left of
/// `input` after some of its front was read.
pub fn consumed(input: &str, rest: &str) -> (n: usize)
    requires
        rest@.len() <= input@.len(),
    ensures
        n == input@.len() - rest@.len(),
        input@.len() <= usize::MAX,
{
    input.unicode_len() - rest.unicode_len()
}

} // verus!
