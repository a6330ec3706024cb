use vstd::prelude::*;
use crate::types::Token;

verus! {

/// What the builder was looking for where it gave up.
#[derive(Debug, Clone, Copy, PartialEq, Eq, Structural)]
pub enum Expected {
    /// `SELECT` at the start of a query.
    Select,
    /// `*` or a column after `SELECT` or `GROUP BY`.
    ColumnList,
    /// A column after a comma.
    Column,
    /// `FROM` after the column list.
    From,
    /// A table name or a query in parentheses.
    Source,
    /// `)` behind a query in parentheses.
    ClosingParen,
    /// `JOIN` behind `INNER`, `LEFT`, `RIGHT`, `FULL` or `OUTER`.
    Join,
    /// `ON` behind the source of a join.
    On,
    /// `BY` behind `GROUP`.
    By,
    /// The name of a binding behind `WITH` or a comma.
    BindingName,
    /// `AS` behind the name of a binding.
    As,
    /// `(` behind `AS`.
    OpeningParen,
    /// A clause keyword, `;` or `)` that ends a predicate, before the input ends.
    PredicateEnd,
    /// A token that the classifier knew, where it found a `Mismatch`.
    KnownToken,
    /// The end of the statement, where tokens are left over.
    EndOfStatement,
    /// A query nested less deeply than the limit.
    ShallowerNesting,
}

impl Expected {
    pub open spec fn spec_describe(self) -> Seq<char> {
        match self {
            Expected::Select => "expected SELECT"@,
            Expected::ColumnList => "expected a column list"@,
            Expected::Column => "expected a column after ','"@,
            Expected::From => "expected FROM after SELECT column list"@,
            Expected::Source => "expected a table name or a query in parentheses"@,
            Expected::ClosingParen => "expected ')'"@,
            Expected::Join => "expected JOIN"@,
            Expected::On => "expected ON after the joined source"@,
            Expected::By => "expected BY after GROUP"@,
            Expected::BindingName => "expected the name of a binding"@,
            Expected::As => "expected AS after the name of the binding"@,
            Expected::OpeningParen => "expected '(' after AS"@,
            Expected::PredicateEnd => "expected the end of the predicate before the end of input"@,
            Expected::KnownToken => "expected a token of a known kind"@,
            Expected::EndOfStatement => "trailing tokens"@,
            Expected::ShallowerNesting => "nesting too deep"@,
        }
    }

    /// The expectation in words.
    pub fn describe(self) -> (words: &'static str)
        ensures
            words@ == self.spec_describe(),
    {
        match self {
            Expected::Select => "expected SELECT",
            Expected::ColumnList => "expected a column list",
            Expected::Column => "expected a column after ','",
            Expected::From => "expected FROM after SELECT column list",
            Expected::Source => "expected a table name or a query in parentheses",
            Expected::ClosingParen => "expected ')'",
            Expected::Join => "expected JOIN",
            Expected::On => "expected ON after the joined source",
            Expected::By => "expected BY after GROUP",
            Expected::BindingName => "expected the name of a binding",
            Expected::As => "expected AS after the name of the binding",
            Expected::OpeningParen => "expected '(' after AS",
            Expected::PredicateEnd => "expected the end of the predicate before the end of input",
            Expected::KnownToken => "expected a token of a known kind",
            Expected::EndOfStatement => "trailing tokens",
            Expected::ShallowerNesting => "nesting too deep",
        }
    }
}

/// Why a token sequence is no statement: the index of the offending token (the number
/// of tokens where the input ended too early) and what was expected there.
#[derive(Debug, Clone, Copy, PartialEq, Eq, Structural)]
pub struct SyntaxError {
    pub position: usize,
    pub expected: Expected,
}

/// What can be wrong with a statement.
#[derive(Debug, Clone, Copy, PartialEq, Eq, Structural)]
pub enum DQLError {
    SyntaxError(SyntaxError),
}

/// Checks a token sequence against the rules of the domain. It has no such rule yet.
pub struct Interpreter<'t> {
    _tokens: &'t [Token],
}

impl<'t> View for Interpreter<'t> {
    type V = Seq<Token>;

    /// The tokens under validation.
    closed spec fn view(&self) -> Seq<Token> {
        self._tokens@
    }
}

impl<'t> Interpreter<'t> {
    pub fn new(tokens: &'t [Token]) -> (interpreter: Self)
        ensures
            interpreter@ == tokens@,
    {
        Self { _tokens: tokens }
    }

    /// Accepts every token sequence, and leaves it as it is.
    pub fn validate(&self) -> (verdict: Result<(), DQLError>)
        ensures
            verdict is Ok,
    {
        Ok(())
    }
}

} // verus!
