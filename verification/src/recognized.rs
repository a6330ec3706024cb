use vstd::prelude::*;
use crate::grammar::{
    binding, bindings, column_list, group_by_clause, is_column, is_delimiter, is_keyword,
    is_kind, join, join_head, joins, lemma_binding_advances, lemma_bindings_advances,
    lemma_column_list_advances, lemma_join_advances, lemma_joins_within,
    lemma_predicate_within, lemma_query_advances, lemma_select_advances, lemma_source_advances,
    more_columns, predicate, predicate_end, query, select, set_operations, source, starts_join,
    statement, tail_clauses, united, where_clause, Clause, MAX_NESTING,
};
use crate::tree::{BindingTree, DqlTree};
use crate::types::{Lexeme, TokenType};

verus! {

/// Whether no token from `from` up to `to` is a `Mismatch`.
pub open spec fn all_known(ts: Seq<Lexeme>, from: int, to: int) -> bool {
    forall|i: int| from <= i < to && 0 <= i < ts.len() ==> (#[trigger] ts[i]).kind
        != TokenType::Mismatch
}

/// A column list holds no `Mismatch`.
pub proof fn lemma_more_columns_known(ts: Seq<Lexeme>, at: int, found: Seq<Lexeme>)
    requires
        0 <= at <= ts.len() <= usize::MAX,
    ensures
        more_columns(ts, at, found) matches Ok((_, end)) ==> all_known(ts, at, end),
    decreases ts.len() - at,
{
    if is_delimiter(ts, at, ","@) && is_column(ts, at + 1) {
        lemma_more_columns_known(ts, at + 2, found.push(ts[at + 1]));
    }
}

/// A column list holds no `Mismatch`.
pub proof fn lemma_column_list_known(ts: Seq<Lexeme>, at: int)
    requires
        0 <= at <= ts.len() <= usize::MAX,
    ensures
        column_list(ts, at) matches Ok((_, end)) ==> all_known(ts, at, end),
{
    if !is_kind(ts, at, TokenType::Asterisk) && is_column(ts, at) {
        lemma_more_columns_known(ts, at + 1, seq![ts[at]]);
    }
}

/// A predicate holds no `Mismatch`.
pub proof fn lemma_predicate_end_known(ts: Seq<Lexeme>, at: int, open: nat, clause: Clause)
    requires
        0 <= at <= ts.len() <= usize::MAX,
    ensures
        predicate_end(ts, at, open, clause) matches Ok(end) ==> all_known(ts, at, end),
    decreases ts.len() - at,
{
    if at < ts.len() && ts[at].kind != TokenType::Mismatch {
        if is_delimiter(ts, at, "("@) {
            lemma_predicate_end_known(ts, at + 1, open + 1, clause);
        } else if is_delimiter(ts, at, ")"@) {
            if open > 0 {
                lemma_predicate_end_known(ts, at + 1, (open - 1) as nat, clause);
            }
        } else {
            lemma_predicate_end_known(ts, at + 1, open, clause);
        }
    }
}

/// A source holds no `Mismatch`.
pub proof fn lemma_source_known(ts: Seq<Lexeme>, at: int, depth: nat)
    requires
        0 <= at <= ts.len() <= usize::MAX,
    ensures
        source(ts, at, depth) matches Ok((_, end)) ==> all_known(ts, at, end),
    decreases MAX_NESTING - depth, 0int, ts.len() - at,
{
    if !is_kind(ts, at, TokenType::Identifier) && is_delimiter(ts, at, "("@) && depth
        < MAX_NESTING {
        lemma_query_advances(ts, at + 1, depth + 1);
        lemma_query_known(ts, at + 1, depth + 1);
    }
}

/// A join holds no `Mismatch`.
pub proof fn lemma_join_known(ts: Seq<Lexeme>, at: int, depth: nat)
    requires
        0 <= at <= ts.len() <= usize::MAX,
    ensures
        join(ts, at, depth) matches Ok((_, end)) ==> all_known(ts, at, end),
    decreases MAX_NESTING - depth, 1int, ts.len() - at,
{
    match join(ts, at, depth) {
        Err(e) => {},
        Ok((joined, end)) => {
            let behind_head = join_head(ts, at)->Ok_0;
            lemma_source_advances(ts, behind_head, depth);
            lemma_source_known(ts, behind_head, depth);
            let (from, behind_source) = source(ts, behind_head, depth)->Ok_0;
            lemma_predicate_end_known(ts, behind_source + 1, 0, Clause::On);
        },
    }
}

/// The joins of a query hold no `Mismatch`.
pub proof fn lemma_joins_known(ts: Seq<Lexeme>, at: int, depth: nat, clauses: Seq<DqlTree>)
    requires
        0 <= at <= ts.len() <= usize::MAX,
    ensures
        joins(ts, at, depth, clauses) matches Ok((_, end)) ==> all_known(ts, at, end),
    decreases MAX_NESTING - depth, 2int, ts.len() - at,
{
    if 0 <= at < ts.len() && starts_join(ts[at]) {
        lemma_join_advances(ts, at, depth);
        match join(ts, at, depth) {
            Err(e) => {},
            Ok((joined, end)) => {
                lemma_join_known(ts, at, depth);
                lemma_joins_known(ts, end, depth, clauses.push(joined));
            },
        }
    }
}

/// The clauses behind the joins hold no `Mismatch`.
pub proof fn lemma_tail_clauses_known(ts: Seq<Lexeme>, at: int, clauses: Seq<DqlTree>)
    requires
        0 <= at <= ts.len() <= usize::MAX,
    ensures
        tail_clauses(ts, at, clauses) matches Ok((_, end)) ==> all_known(ts, at, end),
{
    match tail_clauses(ts, at, clauses) {
        Err(e) => {},
        Ok((result, end)) => {
            let (filtered, behind_where) = where_clause(ts, at, clauses)->Ok_0;
            if is_keyword(ts, at, "WHERE"@) {
                lemma_predicate_within(ts, at + 1, Clause::Where);
                lemma_predicate_end_known(ts, at + 1, 0, Clause::Where);
            }
            let (grouped, behind_group) = group_by_clause(ts, behind_where, filtered)->Ok_0;
            if is_keyword(ts, behind_where, "GROUP"@) {
                lemma_column_list_advances(ts, behind_where + 2);
                lemma_column_list_known(ts, behind_where + 2);
            }
            if is_keyword(ts, behind_group, "HAVING"@) {
                lemma_predicate_end_known(ts, behind_group + 1, 0, Clause::Having);
            }
        },
    }
}

/// A select holds no `Mismatch`.
pub proof fn lemma_select_known(ts: Seq<Lexeme>, at: int, depth: nat)
    requires
        0 <= at <= ts.len() <= usize::MAX,
    ensures
        select(ts, at, depth) matches Ok((_, end)) ==> all_known(ts, at, end),
    decreases MAX_NESTING - depth, 3int, ts.len() - at,
{
    match select(ts, at, depth) {
        Err(e) => {},
        Ok((tree, end)) => {
            lemma_column_list_advances(ts, at + 1);
            lemma_column_list_known(ts, at + 1);
            let (columns, behind_columns) = column_list(ts, at + 1)->Ok_0;
            lemma_source_advances(ts, behind_columns + 1, depth);
            lemma_source_known(ts, behind_columns + 1, depth);
            let (from, behind_source) = source(ts, behind_columns + 1, depth)->Ok_0;
            let first = seq![DqlTree::Select(columns), DqlTree::From(from)];
            lemma_joins_within(ts, behind_source, depth, first);
            lemma_joins_known(ts, behind_source, depth, first);
            let (joined, behind_joins) = joins(ts, behind_source, depth, first)->Ok_0;
            lemma_tail_clauses_known(ts, behind_joins, joined);
        },
    }
}

/// The set operations behind a query hold no `Mismatch`.
pub proof fn lemma_set_operations_known(ts: Seq<Lexeme>, at: int, depth: nat, left: DqlTree)
    requires
        0 <= at <= ts.len() <= usize::MAX,
    ensures
        set_operations(ts, at, depth, left) matches Ok((_, end)) ==> all_known(ts, at, end),
    decreases MAX_NESTING - depth, 4int, ts.len() - at,
{
    if is_keyword(ts, at, "UNION"@) {
        let all = is_keyword(ts, at + 1, "ALL"@);
        let start = if all {
            at + 2
        } else {
            at + 1
        };
        lemma_select_advances(ts, start, depth);
        match select(ts, start, depth) {
            Err(e) => {},
            Ok((right, end)) => {
                lemma_select_known(ts, start, depth);
                lemma_set_operations_known(
                    ts,
                    end,
                    depth,
                    united(left, all, right),
                );
            },
        }
    }
}

/// A query holds no `Mismatch`.
pub proof fn lemma_query_known(ts: Seq<Lexeme>, at: int, depth: nat)
    requires
        0 <= at <= ts.len() <= usize::MAX,
    ensures
        query(ts, at, depth) matches Ok((_, end)) ==> all_known(ts, at, end),
    decreases MAX_NESTING - depth, 5int, ts.len() - at,
{
    lemma_select_advances(ts, at, depth);
    match select(ts, at, depth) {
        Err(e) => {},
        Ok((first, end)) => {
            lemma_select_known(ts, at, depth);
            lemma_set_operations_known(ts, end, depth, first);
        },
    }
}

/// The bindings of a `WITH` clause hold no `Mismatch`.
pub proof fn lemma_bindings_known(ts: Seq<Lexeme>, at: int, found: Seq<BindingTree>)
    requires
        0 <= at <= ts.len() <= usize::MAX,
    ensures
        bindings(ts, at, found) matches Ok((_, end)) ==> all_known(ts, at, end),
    decreases ts.len() - at,
{
    lemma_binding_advances(ts, at);
    match binding(ts, at) {
        Err(e) => {},
        Ok((bound, end)) => {
            lemma_query_advances(ts, at + 3, 1);
            lemma_query_known(ts, at + 3, 1);
            if is_delimiter(ts, end, ","@) {
                lemma_bindings_known(ts, end + 1, found.push(bound));
            }
        },
    }
}

/// A statement holds no `Mismatch`: what the classifier did not know is never passed
/// over, it makes the builder fail.
pub proof fn law_statements_hold_no_mismatch(ts: Seq<Lexeme>)
    requires
        ts.len() <= usize::MAX,
    ensures
        statement(ts) is Ok ==> all_known(ts, 0, ts.len() as int),
{
    if statement(ts) is Ok {
        if is_keyword(ts, 0, "WITH"@) {
            lemma_bindings_advances(ts, 1, Seq::empty());
            lemma_bindings_known(ts, 1, Seq::empty());
            let (bound, behind_with) = bindings(ts, 1, Seq::empty())->Ok_0;
            lemma_query_advances(ts, behind_with, 0);
            lemma_query_known(ts, behind_with, 0);
        } else {
            lemma_query_advances(ts, 0, 0);
            lemma_query_known(ts, 0, 0);
        }
    }
}

} // verus!
