use vstd::prelude::*;
use crate::interpreter::{Expected, SyntaxError};
use crate::tree::{BindingTree, DqlTree, SourceTree};
use crate::types::{Lexeme, TokenType};

verus! {

/// How deeply queries may be nested in parentheses.
pub const MAX_NESTING: usize = 100;

/// What a parser gives: what it read and the index behind it, or why it gave up.
pub type Parsed<T> = Result<(T, int), SyntaxError>;

/// The failure at index `at` for want of `expected`.
pub open spec fn fail<T>(at: int, expected: Expected) -> Result<T, SyntaxError> {
    Err(SyntaxError { position: at as usize, expected })
}

/// Whether the token at `at` is of `kind` and reads `word`.
pub open spec fn is_word(ts: Seq<Lexeme>, at: int, kind: TokenType, word: Seq<char>) -> bool {
    0 <= at < ts.len() && ts[at].kind == kind && ts[at].text == word
}

/// Whether the token at `at` is the keyword `word`.
pub open spec fn is_keyword(ts: Seq<Lexeme>, at: int, word: Seq<char>) -> bool {
    is_word(ts, at, TokenType::Keyword, word)
}

/// Whether the token at `at` is the delimiter `word`.
pub open spec fn is_delimiter(ts: Seq<Lexeme>, at: int, word: Seq<char>) -> bool {
    is_word(ts, at, TokenType::Delimiter, word)
}

/// Whether the token at `at` is of `kind`.
pub open spec fn is_kind(ts: Seq<Lexeme>, at: int, kind: TokenType) -> bool {
    0 <= at < ts.len() && ts[at].kind == kind
}

/// Whether the token at `at` reads `ON`, which is no reserved word.
pub open spec fn is_on(ts: Seq<Lexeme>, at: int) -> bool {
    is_word(ts, at, TokenType::Identifier, "ON"@) || is_word(ts, at, TokenType::Keyword, "ON"@)
}

/// Whether the token at `at` can stand as a column: a name, a number or a literal.
pub open spec fn is_column(ts: Seq<Lexeme>, at: int) -> bool {
    is_kind(ts, at, TokenType::Identifier) || is_kind(ts, at, TokenType::Number) || is_kind(
        ts,
        at,
        TokenType::Literal,
    )
}

/// The columns behind the first: each comes behind a comma. `found` holds the columns
/// read so far and `at` is the index behind the last of them.
pub open spec fn more_columns(ts: Seq<Lexeme>, at: int, found: Seq<Lexeme>) -> Parsed<Seq<Lexeme>>
    decreases ts.len() - at,
{
    if is_delimiter(ts, at, ","@) {
        if is_column(ts, at + 1) {
            more_columns(ts, at + 2, found.push(ts[at + 1]))
        } else {
            fail(at + 1, Expected::Column)
        }
    } else {
        Ok((found, at))
    }
}

/// `column_list := '*' | column (',' column)*`
pub open spec fn column_list(ts: Seq<Lexeme>, at: int) -> Parsed<Seq<Lexeme>> {
    if is_kind(ts, at, TokenType::Asterisk) {
        Ok((seq![ts[at]], at + 1))
    } else if is_column(ts, at) {
        more_columns(ts, at + 1, seq![ts[at]])
    } else {
        fail(at, Expected::ColumnList)
    }
}

/// The clauses that hold a predicate.
#[derive(Debug, Clone, Copy, PartialEq, Eq, Structural)]
pub enum Clause {
    On,
    Where,
    Having,
}

/// Whether `t`, met outside all parentheses of a predicate of `clause`, ends it:
/// `;` and `UNION` end each; `GROUP` and `HAVING` end those of `ON` and `WHERE`;
/// `WHERE` and what starts a join end that of `ON`.
pub open spec fn ends_predicate(clause: Clause, t: Lexeme) -> bool {
    ||| t.kind == TokenType::Delimiter && t.text == ";"@
    ||| t.kind == TokenType::Keyword && t.text == "UNION"@
    ||| t.kind == TokenType::Keyword && clause != Clause::Having && (t.text == "GROUP"@ || t.text
        == "HAVING"@)
    ||| t.kind == TokenType::Keyword && clause == Clause::On && (t.text == "WHERE"@
        || starts_join(t))
}

/// Whether `t` is one of the keywords that a join starts with.
pub open spec fn starts_join(t: Lexeme) -> bool {
    t.kind == TokenType::Keyword && (t.text == "JOIN"@ || t.text == "INNER"@ || t.text == "LEFT"@
        || t.text == "RIGHT"@ || t.text == "FULL"@)
}

/// Where the predicate that is scanned at `at`, inside `open` of its own parentheses,
/// ends: at the first token outside all of them that ends such a predicate or is a `)`.
/// The input must not end before that, and a `Mismatch` on the way is an error.
pub open spec fn predicate_end(ts: Seq<Lexeme>, at: int, open: nat, clause: Clause) -> Result<
    int,
    SyntaxError,
>
    decreases ts.len() - at,
{
    if !(0 <= at < ts.len()) {
        fail(ts.len() as int, Expected::PredicateEnd)
    } else if ts[at].kind == TokenType::Mismatch {
        fail(at, Expected::KnownToken)
    } else if is_delimiter(ts, at, "("@) {
        predicate_end(ts, at + 1, open + 1, clause)
    } else if is_delimiter(ts, at, ")"@) {
        if open == 0 {
            Ok(at)
        } else {
            predicate_end(ts, at + 1, (open - 1) as nat, clause)
        }
    } else if open == 0 && ends_predicate(clause, ts[at]) {
        Ok(at)
    } else {
        predicate_end(ts, at + 1, open, clause)
    }
}

/// The predicate of `clause` that starts at `at`: the tokens up to its end.
pub open spec fn predicate(ts: Seq<Lexeme>, at: int, clause: Clause) -> Parsed<Seq<Lexeme>> {
    match predicate_end(ts, at, 0, clause) {
        Ok(end) => Ok((ts.subrange(at, end), end)),
        Err(e) => Err(e),
    }
}

/// `source := identifier | '(' query ')'`, at nesting level `depth`.
pub open spec fn source(ts: Seq<Lexeme>, at: int, depth: nat) -> Parsed<SourceTree>
    decreases MAX_NESTING - depth, 0int, ts.len() - at,
{
    if is_kind(ts, at, TokenType::Identifier) {
        Ok((SourceTree::Table(ts[at]), at + 1))
    } else if is_delimiter(ts, at, "("@) {
        if depth >= MAX_NESTING {
            fail(at, Expected::ShallowerNesting)
        } else {
            match query(ts, at + 1, depth + 1) {
                Err(e) => Err(e),
                Ok((inner, end)) => if is_delimiter(ts, end, ")"@) {
                    Ok((SourceTree::Subquery(Box::new(inner)), end + 1))
                } else {
                    fail(end, Expected::ClosingParen)
                },
            }
        }
    } else {
        fail(at, Expected::Source)
    }
}

/// The index behind the words that introduce a join at `at`:
/// `[(INNER | LEFT | RIGHT | FULL) [OUTER]] JOIN`.
pub open spec fn join_head(ts: Seq<Lexeme>, at: int) -> Result<int, SyntaxError> {
    let side = is_keyword(ts, at, "INNER"@) || is_keyword(ts, at, "LEFT"@) || is_keyword(
        ts,
        at,
        "RIGHT"@,
    ) || is_keyword(ts, at, "FULL"@);
    let behind_side = if side {
        at + 1
    } else {
        at
    };
    let behind_outer = if side && is_keyword(ts, behind_side, "OUTER"@) {
        behind_side + 1
    } else {
        behind_side
    };
    if is_keyword(ts, behind_outer, "JOIN"@) {
        Ok(behind_outer + 1)
    } else {
        fail(behind_outer, Expected::Join)
    }
}

/// `join := [(INNER | LEFT | RIGHT | FULL) [OUTER]] JOIN source ON predicate`
pub open spec fn join(ts: Seq<Lexeme>, at: int, depth: nat) -> Parsed<DqlTree>
    decreases MAX_NESTING - depth, 1int, ts.len() - at,
{
    match join_head(ts, at) {
        Err(e) => Err(e),
        Ok(behind_head) => match source(ts, behind_head, depth) {
            Err(e) => Err(e),
            Ok((joined, behind_source)) => if is_on(ts, behind_source) {
                match predicate(ts, behind_source + 1, Clause::On) {
                    Err(e) => Err(e),
                    Ok((on, end)) => Ok(
                        (DqlTree::Join(joined, Box::new(DqlTree::Where(on))), end),
                    ),
                }
            } else {
                fail(behind_source, Expected::On)
            },
        },
    }
}

/// The joins of a query, one behind the other; `clauses` holds what was read so far.
/// A join ends behind its start, so the last branch is never taken.
pub open spec fn joins(ts: Seq<Lexeme>, at: int, depth: nat, clauses: Seq<DqlTree>) -> Parsed<
    Seq<DqlTree>,
>
    decreases MAX_NESTING - depth, 2int, ts.len() - at,
{
    if 0 <= at < ts.len() && starts_join(ts[at]) {
        match join(ts, at, depth) {
            Err(e) => Err(e),
            Ok((joined, end)) => if at < end <= ts.len() {
                joins(ts, end, depth, clauses.push(joined))
            } else {
                fail(at, Expected::Join)
            },
        }
    } else {
        Ok((clauses, at))
    }
}

/// `[WHERE predicate]`
pub open spec fn where_clause(ts: Seq<Lexeme>, at: int, clauses: Seq<DqlTree>) -> Parsed<
    Seq<DqlTree>,
> {
    if is_keyword(ts, at, "WHERE"@) {
        match predicate(ts, at + 1, Clause::Where) {
            Err(e) => Err(e),
            Ok((tokens, end)) => Ok((clauses.push(DqlTree::Where(tokens)), end)),
        }
    } else {
        Ok((clauses, at))
    }
}

/// `[GROUP BY column_list]`
pub open spec fn group_by_clause(ts: Seq<Lexeme>, at: int, clauses: Seq<DqlTree>) -> Parsed<
    Seq<DqlTree>,
> {
    if is_keyword(ts, at, "GROUP"@) {
        if is_keyword(ts, at + 1, "BY"@) {
            match column_list(ts, at + 2) {
                Err(e) => Err(e),
                Ok((columns, end)) => Ok((clauses.push(DqlTree::GroupBy(columns)), end)),
            }
        } else {
            fail(at + 1, Expected::By)
        }
    } else {
        Ok((clauses, at))
    }
}

/// `[HAVING predicate]`
pub open spec fn having_clause(ts: Seq<Lexeme>, at: int, clauses: Seq<DqlTree>) -> Parsed<
    Seq<DqlTree>,
> {
    if is_keyword(ts, at, "HAVING"@) {
        match predicate(ts, at + 1, Clause::Having) {
            Err(e) => Err(e),
            Ok((tokens, end)) => Ok((clauses.push(DqlTree::Having(tokens)), end)),
        }
    } else {
        Ok((clauses, at))
    }
}

/// The clauses that may follow the joins, each at most once and in this order:
/// `[WHERE predicate] [GROUP BY column_list] [HAVING predicate]`.
pub open spec fn tail_clauses(ts: Seq<Lexeme>, at: int, clauses: Seq<DqlTree>) -> Parsed<
    Seq<DqlTree>,
> {
    match where_clause(ts, at, clauses) {
        Err(e) => Err(e),
        Ok((filtered, behind_where)) => match group_by_clause(ts, behind_where, filtered) {
            Err(e) => Err(e),
            Ok((grouped, behind_group)) => having_clause(ts, behind_group, grouped),
        },
    }
}

/// `select := SELECT column_list FROM source join* [WHERE ..] [GROUP BY ..] [HAVING ..]`,
/// a `Query` of its clauses in the order in which they stand.
pub open spec fn select(ts: Seq<Lexeme>, at: int, depth: nat) -> Parsed<DqlTree>
    decreases MAX_NESTING - depth, 3int, ts.len() - at,
{
    if !is_keyword(ts, at, "SELECT"@) {
        fail(at, Expected::Select)
    } else {
        match column_list(ts, at + 1) {
            Err(e) => Err(e),
            Ok((columns, behind_columns)) => if !is_keyword(ts, behind_columns, "FROM"@) {
                fail(behind_columns, Expected::From)
            } else {
                match source(ts, behind_columns + 1, depth) {
                    Err(e) => Err(e),
                    Ok((from, behind_source)) => match joins(
                        ts,
                        behind_source,
                        depth,
                        seq![DqlTree::Select(columns), DqlTree::From(from)],
                    ) {
                        Err(e) => Err(e),
                        Ok((joined, behind_joins)) => match tail_clauses(
                            ts,
                            behind_joins,
                            joined,
                        ) {
                            Err(e) => Err(e),
                            Ok((clauses, end)) => Ok((DqlTree::Query(clauses), end)),
                        },
                    },
                }
            },
        }
    }
}

/// What `left UNION right` is, or `left UNION ALL right` where `all` holds: `right` joins
/// the branches of `left` where `left` was built by the same operator, else the two
/// become the branches of a new node.
pub open spec fn united(left: DqlTree, all: bool, right: DqlTree) -> DqlTree {
    match left {
        DqlTree::Union(branches) if !all => DqlTree::Union(branches.push(right)),
        DqlTree::UnionAll(branches) if all => DqlTree::UnionAll(branches.push(right)),
        _ => if all {
            DqlTree::UnionAll(seq![left, right])
        } else {
            DqlTree::Union(seq![left, right])
        },
    }
}

/// `(UNION [ALL] select)*` behind the query `left`, applied from left to right.
/// A select ends behind its start, so the last branch is never taken.
pub open spec fn set_operations(ts: Seq<Lexeme>, at: int, depth: nat, left: DqlTree) -> Parsed<
    DqlTree,
>
    decreases MAX_NESTING - depth, 4int, ts.len() - at,
{
    if is_keyword(ts, at, "UNION"@) {
        let all = is_keyword(ts, at + 1, "ALL"@);
        let start = if all {
            at + 2
        } else {
            at + 1
        };
        match select(ts, start, depth) {
            Err(e) => Err(e),
            Ok((right, end)) => if at < end <= ts.len() {
                set_operations(ts, end, depth, united(left, all, right))
            } else {
                fail(at, Expected::Select)
            },
        }
    } else {
        Ok((left, at))
    }
}

/// `query := select (UNION [ALL] select)*`
pub open spec fn query(ts: Seq<Lexeme>, at: int, depth: nat) -> Parsed<DqlTree>
    decreases MAX_NESTING - depth, 5int, ts.len() - at,
{
    match select(ts, at, depth) {
        Err(e) => Err(e),
        Ok((first, end)) => set_operations(ts, end, depth, first),
    }
}

/// Whether an outcome keeps to the input: a success ends at or behind `at`, a failure
/// lies at or behind `at`, and neither lies behind the end of the input.
pub open spec fn within<T>(outcome: Parsed<T>, at: int, len: int) -> bool {
    match outcome {
        Ok((_, end)) => at <= end <= len,
        Err(e) => at <= e.position <= len,
    }
}

/// Whether an outcome keeps to the input and a success has read at least one token.
pub open spec fn advances<T>(outcome: Parsed<T>, at: int, len: int) -> bool {
    within(outcome, at, len) && (outcome matches Ok((_, end)) ==> at < end)
}

/// The columns behind the first keep to the input.
pub proof fn lemma_more_columns_within(ts: Seq<Lexeme>, at: int, found: Seq<Lexeme>)
    requires
        0 <= at <= ts.len() <= usize::MAX,
    ensures
        within(more_columns(ts, at, found), at, ts.len() as int),
    decreases ts.len() - at,
{
    if is_delimiter(ts, at, ","@) && is_column(ts, at + 1) {
        lemma_more_columns_within(ts, at + 2, found.push(ts[at + 1]));
    }
}

/// A column list keeps to the input and holds at least one token.
pub proof fn lemma_column_list_advances(ts: Seq<Lexeme>, at: int)
    requires
        0 <= at <= ts.len() <= usize::MAX,
    ensures
        advances(column_list(ts, at), at, ts.len() as int),
{
    if !is_kind(ts, at, TokenType::Asterisk) && is_column(ts, at) {
        lemma_more_columns_within(ts, at + 1, seq![ts[at]]);
    }
}

/// A predicate ends at a token of the input, at or behind its start.
pub proof fn lemma_predicate_end_within(ts: Seq<Lexeme>, at: int, open: nat, clause: Clause)
    requires
        0 <= at <= ts.len() <= usize::MAX,
    ensures
        predicate_end(ts, at, open, clause) matches Ok(end) ==> at <= end < ts.len(),
        predicate_end(ts, at, open, clause) matches Err(e) ==> at <= e.position <= ts.len(),
    decreases ts.len() - at,
{
    if at < ts.len() && ts[at].kind != TokenType::Mismatch {
        if is_delimiter(ts, at, "("@) {
            lemma_predicate_end_within(ts, at + 1, open + 1, clause);
        } else if is_delimiter(ts, at, ")"@) {
            if open > 0 {
                lemma_predicate_end_within(ts, at + 1, (open - 1) as nat, clause);
            }
        } else if !(open == 0 && ends_predicate(clause, ts[at])) {
            lemma_predicate_end_within(ts, at + 1, open, clause);
        }
    }
}

/// A predicate keeps to the input.
pub proof fn lemma_predicate_within(ts: Seq<Lexeme>, at: int, clause: Clause)
    requires
        0 <= at <= ts.len() <= usize::MAX,
    ensures
        within(predicate(ts, at, clause), at, ts.len() as int),
        predicate(ts, at, clause) matches Ok((_, end)) ==> end < ts.len(),
{
    lemma_predicate_end_within(ts, at, 0, clause);
}

/// A source keeps to the input and holds at least one token.
pub proof fn lemma_source_advances(ts: Seq<Lexeme>, at: int, depth: nat)
    requires
        0 <= at <= ts.len() <= usize::MAX,
    ensures
        advances(source(ts, at, depth), at, ts.len() as int),
    decreases MAX_NESTING - depth, 0int, ts.len() - at,
{
    if !is_kind(ts, at, TokenType::Identifier) && is_delimiter(ts, at, "("@) && depth
        < MAX_NESTING {
        lemma_query_advances(ts, at + 1, depth + 1);
    }
}

/// A join keeps to the input and holds at least one token.
pub proof fn lemma_join_advances(ts: Seq<Lexeme>, at: int, depth: nat)
    requires
        0 <= at <= ts.len() <= usize::MAX,
    ensures
        advances(join(ts, at, depth), at, ts.len() as int),
    decreases MAX_NESTING - depth, 1int, ts.len() - at,
{
    match join_head(ts, at) {
        Err(e) => {},
        Ok(behind_head) => {
            lemma_source_advances(ts, behind_head, depth);
            match source(ts, behind_head, depth) {
                Err(e) => {},
                Ok((joined, behind_source)) => {
                    if is_on(ts, behind_source) {
                        lemma_predicate_within(ts, behind_source + 1, Clause::On);
                    }
                },
            }
        },
    }
}

/// The joins of a query keep to the input, and the branch that `joins` has for a join
/// that reads nothing is never taken: `joins` is the plain repetition of `join`.
pub proof fn lemma_joins_within(ts: Seq<Lexeme>, at: int, depth: nat, clauses: Seq<DqlTree>)
    requires
        0 <= at <= ts.len() <= usize::MAX,
    ensures
        within(joins(ts, at, depth, clauses), at, ts.len() as int),
        0 <= at < ts.len() && starts_join(ts[at]) ==> joins(ts, at, depth, clauses) == (match join(
            ts,
            at,
            depth,
        ) {
            Err(e) => Err(e),
            Ok((joined, end)) => joins(ts, end, depth, clauses.push(joined)),
        }),
    decreases MAX_NESTING - depth, 2int, ts.len() - at,
{
    if 0 <= at < ts.len() && starts_join(ts[at]) {
        lemma_join_advances(ts, at, depth);
        match join(ts, at, depth) {
            Err(e) => {},
            Ok((joined, end)) => {
                lemma_joins_within(ts, end, depth, clauses.push(joined));
            },
        }
    }
}

/// The clauses behind the joins keep to the input.
pub proof fn lemma_tail_clauses_within(ts: Seq<Lexeme>, at: int, clauses: Seq<DqlTree>)
    requires
        0 <= at <= ts.len() <= usize::MAX,
    ensures
        within(tail_clauses(ts, at, clauses), at, ts.len() as int),
{
    if is_keyword(ts, at, "WHERE"@) {
        lemma_predicate_within(ts, at + 1, Clause::Where);
    }
    match where_clause(ts, at, clauses) {
        Err(e) => {},
        Ok((filtered, behind_where)) => {
            if is_keyword(ts, behind_where, "GROUP"@) && is_keyword(ts, behind_where + 1, "BY"@) {
                lemma_column_list_advances(ts, behind_where + 2);
            }
            match group_by_clause(ts, behind_where, filtered) {
                Err(e) => {},
                Ok((grouped, behind_group)) => {
                    if is_keyword(ts, behind_group, "HAVING"@) {
                        lemma_predicate_within(ts, behind_group + 1, Clause::Having);
                    }
                },
            }
        },
    }
}

/// A select keeps to the input and holds at least one token.
pub proof fn lemma_select_advances(ts: Seq<Lexeme>, at: int, depth: nat)
    requires
        0 <= at <= ts.len() <= usize::MAX,
    ensures
        advances(select(ts, at, depth), at, ts.len() as int),
    decreases MAX_NESTING - depth, 3int, ts.len() - at,
{
    if is_keyword(ts, at, "SELECT"@) {
        lemma_column_list_advances(ts, at + 1);
        match column_list(ts, at + 1) {
            Err(e) => {},
            Ok((columns, behind_columns)) => {
                if is_keyword(ts, behind_columns, "FROM"@) {
                    lemma_source_advances(ts, behind_columns + 1, depth);
                    match source(ts, behind_columns + 1, depth) {
                        Err(e) => {},
                        Ok((from, behind_source)) => {
                            let first = seq![DqlTree::Select(columns), DqlTree::From(from)];
                            lemma_joins_within(ts, behind_source, depth, first);
                            match joins(ts, behind_source, depth, first) {
                                Err(e) => {},
                                Ok((joined, behind_joins)) => {
                                    lemma_tail_clauses_within(ts, behind_joins, joined);
                                },
                            }
                        },
                    }
                }
            },
        }
    }
}

/// The set operations behind a query keep to the input, and the branch that
/// `set_operations` has for a select that reads nothing is never taken.
pub proof fn lemma_set_operations_within(ts: Seq<Lexeme>, at: int, depth: nat, left: DqlTree)
    requires
        0 <= at <= ts.len() <= usize::MAX,
    ensures
        within(set_operations(ts, at, depth, left), at, ts.len() as int),
        is_keyword(ts, at, "UNION"@) ==> set_operations(ts, at, depth, left) == ({
            let all = is_keyword(ts, at + 1, "ALL"@);
            match select(ts, if all { at + 2 } else { at + 1 }, depth) {
                Err(e) => Err(e),
                Ok((right, end)) => set_operations(ts, end, depth, united(left, all, right)),
            }
        }),
    decreases MAX_NESTING - depth, 4int, ts.len() - at,
{
    if is_keyword(ts, at, "UNION"@) {
        let all = is_keyword(ts, at + 1, "ALL"@);
        let start = if all { at + 2 } else { at + 1 };
        lemma_select_advances(ts, start, depth);
        match select(ts, start, depth) {
            Err(e) => {},
            Ok((right, end)) => {
                lemma_set_operations_within(ts, end, depth, united(left, all, right));
            },
        }
    }
}

/// A query keeps to the input and holds at least one token.
pub proof fn lemma_query_advances(ts: Seq<Lexeme>, at: int, depth: nat)
    requires
        0 <= at <= ts.len() <= usize::MAX,
    ensures
        advances(query(ts, at, depth), at, ts.len() as int),
    decreases MAX_NESTING - depth, 5int, ts.len() - at,
{
    lemma_select_advances(ts, at, depth);
    match select(ts, at, depth) {
        Err(e) => {},
        Ok((first, end)) => {
            lemma_set_operations_within(ts, end, depth, first);
        },
    }
}

/// `binding := identifier AS '(' query ')'`; the query is nested once.
pub open spec fn binding(ts: Seq<Lexeme>, at: int) -> Parsed<BindingTree> {
    if !is_kind(ts, at, TokenType::Identifier) {
        fail(at, Expected::BindingName)
    } else if !is_keyword(ts, at + 1, "AS"@) {
        fail(at + 1, Expected::As)
    } else if !is_delimiter(ts, at + 2, "("@) {
        fail(at + 2, Expected::OpeningParen)
    } else {
        match query(ts, at + 3, 1) {
            Err(e) => Err(e),
            Ok((body, end)) => if is_delimiter(ts, end, ")"@) {
                Ok((BindingTree { name: ts[at], body }, end + 1))
            } else {
                fail(end, Expected::ClosingParen)
            },
        }
    }
}

/// A binding keeps to the input and holds at least one token.
pub proof fn lemma_binding_advances(ts: Seq<Lexeme>, at: int)
    requires
        0 <= at <= ts.len() <= usize::MAX,
    ensures
        advances(binding(ts, at), at, ts.len() as int),
{
    if is_kind(ts, at, TokenType::Identifier) && is_keyword(ts, at + 1, "AS"@) && is_delimiter(
        ts,
        at + 2,
        "("@,
    ) {
        lemma_query_advances(ts, at + 3, 1);
    }
}

/// `binding (',' binding)*`; `found` holds the bindings read so far.
pub open spec fn bindings(ts: Seq<Lexeme>, at: int, found: Seq<BindingTree>) -> Parsed<
    Seq<BindingTree>,
>
    decreases ts.len() - at,
    when 0 <= at <= ts.len() <= usize::MAX
{
    match binding(ts, at) {
        Err(e) => Err(e),
        Ok((bound, end)) => if is_delimiter(ts, end, ","@) {
            proof {
                lemma_binding_advances(ts, at);
            }
            bindings(ts, end + 1, found.push(bound))
        } else {
            Ok((found.push(bound), end))
        },
    }
}

/// The bindings of a `WITH` clause keep to the input and hold at least one token.
pub proof fn lemma_bindings_advances(ts: Seq<Lexeme>, at: int, found: Seq<BindingTree>)
    requires
        0 <= at <= ts.len() <= usize::MAX,
    ensures
        advances(bindings(ts, at, found), at, ts.len() as int),
    decreases ts.len() - at,
{
    lemma_binding_advances(ts, at);
    match binding(ts, at) {
        Err(e) => {},
        Ok((bound, end)) => {
            if is_delimiter(ts, end, ","@) {
                lemma_bindings_advances(ts, end + 1, found.push(bound));
            }
        },
    }
}

/// The index behind the `;` that may end a statement whose query ends at `at`.
pub open spec fn behind_terminator(ts: Seq<Lexeme>, at: int) -> int {
    if is_delimiter(ts, at, ";"@) {
        at + 1
    } else {
        at
    }
}

/// `statement := [WITH binding (',' binding)*] query [';']`, which must be the whole
/// input. With a `WITH` clause the tree is a `With` over the bindings and the query,
/// without one it is the query.
pub open spec fn statement(ts: Seq<Lexeme>) -> Result<DqlTree, SyntaxError>
    recommends
        ts.len() <= usize::MAX,
{
    if is_keyword(ts, 0, "WITH"@) {
        match bindings(ts, 1, Seq::empty()) {
            Err(e) => Err(e),
            Ok((bound, behind_with)) => match query(ts, behind_with, 0) {
                Err(e) => Err(e),
                Ok((body, end)) => if behind_terminator(ts, end) == ts.len() {
                    Ok(DqlTree::With(bound, Box::new(body)))
                } else {
                    fail(behind_terminator(ts, end), Expected::EndOfStatement)
                },
            },
        }
    } else {
        match query(ts, 0, 0) {
            Err(e) => Err(e),
            Ok((body, end)) => if behind_terminator(ts, end) == ts.len() {
                Ok(body)
            } else {
                fail(behind_terminator(ts, end), Expected::EndOfStatement)
            },
        }
    }
}

/// Where tokens are no statement, the failure lies at a token of the input or, where the
/// input ended too early, just behind its last token.
pub proof fn law_failures_lie_in_the_input(ts: Seq<Lexeme>)
    requires
        ts.len() <= usize::MAX,
    ensures
        statement(ts) matches Err(e) ==> e.position <= ts.len(),
{
    if is_keyword(ts, 0, "WITH"@) {
        lemma_bindings_advances(ts, 1, Seq::empty());
        match bindings(ts, 1, Seq::empty()) {
            Err(e) => {},
            Ok((bound, behind_with)) => {
                lemma_query_advances(ts, behind_with, 0);
            },
        }
    } else {
        lemma_query_advances(ts, 0, 0);
    }
}

/// What a token adds to the number of open parentheses.
pub open spec fn paren(t: Lexeme) -> int {
    if t.kind == TokenType::Delimiter && t.text == "("@ {
        1
    } else if t.kind == TokenType::Delimiter && t.text == ")"@ {
        -1
    } else {
        0
    }
}

/// How many more `(` than `)` stand from `from` up to `to`.
pub open spec fn nesting(ts: Seq<Lexeme>, from: int, to: int) -> int
    decreases to - from,
{
    if from >= to {
        0
    } else {
        paren(ts[from]) + nesting(ts, from + 1, to)
    }
}

/// Whether `t`, met outside all parentheses of a predicate of `clause`, is where it ends.
pub open spec fn stops(clause: Clause, t: Lexeme) -> bool {
    ends_predicate(clause, t) || paren(t) == -1
}

/// A predicate ends at the first token that stops it and stands outside all the
/// parentheses opened since its start. What stands inside parentheses never ends it,
/// whatever it is: the clauses of a query in parentheses stay in the predicate.
pub proof fn law_predicate_end_tracks_depth(
    ts: Seq<Lexeme>,
    at: int,
    open: nat,
    clause: Clause,
    end: int,
)
    requires
        0 <= at <= ts.len(),
        predicate_end(ts, at, open, clause) == Ok::<int, SyntaxError>(end),
    ensures
        at <= end < ts.len(),
        stops(clause, ts[end]),
        open + nesting(ts, at, end) == 0,
        forall|i: int|
            at <= i < end ==> {
                &&& ts[i].kind != TokenType::Mismatch
                &&& open + #[trigger] nesting(ts, at, i) >= 0
                &&& !(open + nesting(ts, at, i) == 0 && stops(clause, ts[i]))
            },
    decreases ts.len() - at,
{
    reveal_strlit("(");
    reveal_strlit(")");
    reveal_strlit(";");
    assert(0 <= at < ts.len() && ts[at].kind != TokenType::Mismatch);
    let inner: nat = if is_delimiter(ts, at, "("@) {
        open + 1
    } else if is_delimiter(ts, at, ")"@) {
        (open - 1) as nat
    } else {
        open
    };
    let here = if is_delimiter(ts, at, "("@) {
        false
    } else if is_delimiter(ts, at, ")"@) {
        open == 0
    } else {
        open == 0 && ends_predicate(clause, ts[at])
    };
    if here {
        assert(end == at);
    } else {
        assert(predicate_end(ts, at, open, clause) == predicate_end(ts, at + 1, inner, clause));
        law_predicate_end_tracks_depth(ts, at + 1, inner, clause, end);
        assert(inner == open + paren(ts[at]));
        assert(nesting(ts, at, end) == paren(ts[at]) + nesting(ts, at + 1, end));
        assert forall|i: int| at <= i < end implies {
            &&& ts[i].kind != TokenType::Mismatch
            &&& open + #[trigger] nesting(ts, at, i) >= 0
            &&& !(open + nesting(ts, at, i) == 0 && stops(clause, ts[i]))
        } by {
            if i > at {
                assert(inner + nesting(ts, at + 1, i) >= 0);
                assert(nesting(ts, at, i) == paren(ts[at]) + nesting(ts, at + 1, i));
            } else {
                assert(nesting(ts, at, at) == 0);
                assert("("@.len() == 1 && "("@[0] == '(');
                assert(")"@.len() == 1 && ")"@[0] == ')');
                assert(";"@.len() == 1 && ";"@[0] == ';');
                assert(!(open == 0 && stops(clause, ts[at])));
            }
        }
    }
}

/// A query that has nothing between `SELECT` and what follows it that could be a column
/// is no statement: the failure lies at the token behind `SELECT` and asks for a
/// column list.
pub proof fn law_select_needs_columns(ts: Seq<Lexeme>)
    requires
        ts.len() <= usize::MAX,
        is_keyword(ts, 0, "SELECT"@),
        !is_kind(ts, 1, TokenType::Asterisk),
        !is_column(ts, 1),
    ensures
        statement(ts) == fail::<DqlTree>(1, Expected::ColumnList),
{
    reveal_strlit("SELECT");
    reveal_strlit("WITH");
    assert("SELECT"@.len() == 6 && "WITH"@.len() == 4);
    assert(!is_keyword(ts, 0, "WITH"@));
}

} // verus!
