use vstd::prelude::*;
use crate::grammar::{
    binding, bindings, column_list, group_by_clause, is_column, is_delimiter, is_keyword,
    is_kind, join, join_head, joins, lemma_binding_advances, lemma_bindings_advances,
    lemma_column_list_advances, lemma_join_advances, lemma_joins_within,
    lemma_predicate_within, lemma_query_advances, lemma_select_advances,
    lemma_source_advances, more_columns, predicate, query, select, set_operations, source,
    starts_join, statement, tail_clauses, united, where_clause, Clause, MAX_NESTING,
};
use crate::tree::{
    leaves, leaves_of_all, leaves_of_bindings, source_leaves, BindingTree, DqlTree,
};
use crate::types::{Lexeme, TokenType};

verus! {

/// Whether `tokens` are the tokens of `ts` at `places`, which lie from `from` up to
/// `to` and grow from one to the next: tokens of the input, each taken once and in
/// the order of the input.
pub open spec fn picks(
    ts: Seq<Lexeme>,
    from: int,
    to: int,
    places: Seq<int>,
    tokens: Seq<Lexeme>,
) -> bool {
    &&& places.len() == tokens.len()
    &&& forall|i: int|
        0 <= i < places.len() ==> from <= #[trigger] places[i] < to && 0 <= places[i] < ts.len()
            && tokens[i] == ts[places[i]]
    &&& forall|i: int, j: int|
        0 <= i < j < places.len() ==> #[trigger] places[i] < #[trigger] places[j]
}

/// What is picked from one stretch of the input, followed by what is picked from a
/// later one, is picked from every stretch that holds the two.
pub proof fn lemma_picks_both(
    ts: Seq<Lexeme>,
    from: int,
    to: int,
    first_window: (int, int),
    first_places: Seq<int>,
    first: Seq<Lexeme>,
    second_window: (int, int),
    second_places: Seq<int>,
    second: Seq<Lexeme>,
)
    requires
        from <= first_window.0 <= first_window.1 <= second_window.0 <= second_window.1 <= to,
        picks(ts, first_window.0, first_window.1, first_places, first),
        picks(ts, second_window.0, second_window.1, second_places, second),
    ensures
        picks(ts, from, to, first_places + second_places, first + second),
{
    let places = first_places + second_places;
    let tokens = first + second;
    assert forall|i: int| 0 <= i < places.len() implies from <= #[trigger] places[i] < to && 0
        <= places[i] < ts.len() && tokens[i] == ts[places[i]] by {
        if i < first_places.len() {
            assert(places[i] == first_places[i]);
        } else {
            assert(places[i] == second_places[i - first_places.len()]);
        }
    }
    assert forall|i: int, j: int| 0 <= i < j < places.len() implies #[trigger] places[i]
        < #[trigger] places[j] by {
        if i < first_places.len() {
            assert(places[i] == first_places[i]);
        } else {
            assert(places[i] == second_places[i - first_places.len()]);
        }
        if j < first_places.len() {
            assert(places[j] == first_places[j]);
        } else {
            assert(places[j] == second_places[j - first_places.len()]);
        }
    }
}

/// The places from `from` up to `to`, one by one.
pub open spec fn stretch(from: int, to: int) -> Seq<int> {
    Seq::new((to - from) as nat, |i: int| from + i)
}

/// A stretch of the input is picked from itself.
pub proof fn lemma_picks_stretch(ts: Seq<Lexeme>, from: int, to: int)
    requires
        0 <= from <= to <= ts.len(),
    ensures
        picks(ts, from, to, stretch(from, to), ts.subrange(from, to)),
{
}

/// The trees of a list with one more tree hold the tokens of the list, then those of
/// the tree.
pub proof fn lemma_leaves_of_one_more(trees: Seq<DqlTree>, tree: DqlTree)
    ensures
        leaves_of_all(trees.push(tree)) == leaves_of_all(trees) + leaves(tree),
{
    assert(trees.push(tree).drop_last() =~= trees);
}

/// Two trees in a list hold the tokens of the first, then those of the second.
pub proof fn lemma_leaves_of_two(left: DqlTree, right: DqlTree)
    ensures
        leaves_of_all(seq![left, right]) == leaves(left) + leaves(right),
{
    assert(seq![left, right] =~= Seq::<DqlTree>::empty().push(left).push(right));
    lemma_leaves_of_one_more(Seq::<DqlTree>::empty().push(left), right);
    lemma_leaves_of_one_more(Seq::<DqlTree>::empty(), left);
    assert(Seq::<Lexeme>::empty() + leaves(left) =~= leaves(left));
}

/// A union holds the tokens of its left side, then those of its right side.
pub proof fn lemma_leaves_of_united(left: DqlTree, all: bool, right: DqlTree)
    ensures
        leaves(united(left, all, right)) == leaves(left) + leaves(right),
{
    lemma_leaves_of_two(left, right);
    match left {
        DqlTree::Union(branches) => {
            lemma_leaves_of_one_more(branches, right);
        },
        DqlTree::UnionAll(branches) => {
            lemma_leaves_of_one_more(branches, right);
        },
        _ => {},
    }
}

/// The columns of a column list are picked from the stretch that it was read from.
pub proof fn lemma_more_columns_in_order(
    ts: Seq<Lexeme>,
    from: int,
    at: int,
    found: Seq<Lexeme>,
    places: Seq<int>,
) -> (all: Seq<int>)
    requires
        0 <= from <= at <= ts.len() <= usize::MAX,
        picks(ts, from, at, places, found),
    ensures
        more_columns(ts, at, found) matches Ok((columns, end)) ==> picks(
            ts,
            from,
            end,
            all,
            columns,
        ),
    decreases ts.len() - at,
{
    if is_delimiter(ts, at, ","@) && is_column(ts, at + 1) {
        assert(picks(ts, at, at + 2, seq![at + 1], seq![ts[at + 1]]));
        lemma_picks_both(ts, from, at + 2, (from, at), places, found, (at, at + 2), seq![at + 1], seq![ts[at + 1]]);
        assert(found + seq![ts[at + 1]] =~= found.push(ts[at + 1]));
        lemma_more_columns_in_order(
            ts,
            from,
            at + 2,
            found.push(ts[at + 1]),
            places + seq![at + 1],
        )
    } else {
        places
    }
}

/// The columns of a column list are picked from the stretch that it was read from.
pub proof fn lemma_column_list_in_order(ts: Seq<Lexeme>, at: int) -> (all: Seq<int>)
    requires
        0 <= at <= ts.len() <= usize::MAX,
    ensures
        column_list(ts, at) matches Ok((columns, end)) ==> picks(ts, at, end, all, columns),
{
    if is_kind(ts, at, TokenType::Asterisk) {
        seq![at]
    } else if is_column(ts, at) {
        lemma_more_columns_in_order(ts, at, at + 1, seq![ts[at]], seq![at])
    } else {
        Seq::empty()
    }
}

/// A predicate is the stretch that it was read from.
pub proof fn lemma_predicate_in_order(ts: Seq<Lexeme>, at: int, clause: Clause) -> (all: Seq<int>)
    requires
        0 <= at <= ts.len() <= usize::MAX,
    ensures
        predicate(ts, at, clause) matches Ok((tokens, end)) ==> picks(ts, at, end, all, tokens),
{
    lemma_predicate_within(ts, at, clause);
    match predicate(ts, at, clause) {
        Ok((tokens, end)) => {
            lemma_picks_stretch(ts, at, end);
            stretch(at, end)
        },
        Err(e) => Seq::empty(),
    }
}

/// The tokens of a source are picked from the stretch that it was read from.
pub proof fn lemma_source_in_order(ts: Seq<Lexeme>, at: int, depth: nat) -> (all: Seq<int>)
    requires
        0 <= at <= ts.len() <= usize::MAX,
    ensures
        source(ts, at, depth) matches Ok((from, end)) ==> picks(
            ts,
            at,
            end,
            all,
            source_leaves(from),
        ),
    decreases MAX_NESTING - depth, 0int, ts.len() - at,
{
    if is_kind(ts, at, TokenType::Identifier) {
        seq![at]
    } else if is_delimiter(ts, at, "("@) && depth < MAX_NESTING {
        lemma_query_advances(ts, at + 1, depth + 1);
        lemma_query_in_order(ts, at + 1, depth + 1)
    } else {
        Seq::empty()
    }
}

/// The tokens of a join are picked from the stretch that it was read from.
pub proof fn lemma_join_in_order(ts: Seq<Lexeme>, at: int, depth: nat) -> (all: Seq<int>)
    requires
        0 <= at <= ts.len() <= usize::MAX,
    ensures
        join(ts, at, depth) matches Ok((joined, end)) ==> picks(ts, at, end, all, leaves(joined)),
    decreases MAX_NESTING - depth, 1int, ts.len() - at,
{
    match join(ts, at, depth) {
        Err(e) => Seq::empty(),
        Ok((joined, end)) => {
            let behind_head = join_head(ts, at)->Ok_0;
            lemma_source_advances(ts, behind_head, depth);
            let from_places = lemma_source_in_order(ts, behind_head, depth);
            let (from, behind_source) = source(ts, behind_head, depth)->Ok_0;
            lemma_predicate_within(ts, behind_source + 1, Clause::On);
            let on_places = lemma_predicate_in_order(ts, behind_source + 1, Clause::On);
            let (on, behind) = predicate(ts, behind_source + 1, Clause::On)->Ok_0;
            assert(leaves(DqlTree::Where(on)) == on);
            lemma_picks_both(ts, at, end, (behind_head, behind_source), from_places, source_leaves(from), (behind_source + 1, end), on_places, on);
            from_places + on_places
        },
    }
}

/// The tokens of the joins of a query, behind those of the clauses read before, are
/// picked from the stretch that all of them were read from.
pub proof fn lemma_joins_in_order(
    ts: Seq<Lexeme>,
    from: int,
    at: int,
    depth: nat,
    clauses: Seq<DqlTree>,
    places: Seq<int>,
) -> (all: Seq<int>)
    requires
        0 <= from <= at <= ts.len() <= usize::MAX,
        picks(ts, from, at, places, leaves_of_all(clauses)),
    ensures
        joins(ts, at, depth, clauses) matches Ok((result, end)) ==> picks(
            ts,
            from,
            end,
            all,
            leaves_of_all(result),
        ),
    decreases MAX_NESTING - depth, 2int, ts.len() - at,
{
    if 0 <= at < ts.len() && starts_join(ts[at]) {
        lemma_join_advances(ts, at, depth);
        match join(ts, at, depth) {
            Err(e) => Seq::empty(),
            Ok((joined, end)) => {
                let join_places = lemma_join_in_order(ts, at, depth);
                lemma_picks_both(ts, from, end, (from, at), places, leaves_of_all(clauses), (at, end), join_places, leaves(joined));
                lemma_leaves_of_one_more(clauses, joined);
                lemma_joins_in_order(
                    ts,
                    from,
                    end,
                    depth,
                    clauses.push(joined),
                    places + join_places,
                )
            },
        }
    } else {
        places
    }
}

/// The tokens of the clauses behind the joins, behind those of the clauses read
/// before, are picked from the stretch that all of them were read from.
pub proof fn lemma_tail_clauses_in_order(
    ts: Seq<Lexeme>,
    from: int,
    at: int,
    clauses: Seq<DqlTree>,
    places: Seq<int>,
) -> (all: Seq<int>)
    requires
        0 <= from <= at <= ts.len() <= usize::MAX,
        picks(ts, from, at, places, leaves_of_all(clauses)),
    ensures
        tail_clauses(ts, at, clauses) matches Ok((result, end)) ==> picks(
            ts,
            from,
            end,
            all,
            leaves_of_all(result),
        ),
{
    match tail_clauses(ts, at, clauses) {
        Err(e) => Seq::empty(),
        Ok((result, end)) => {
            let (filtered, behind_where) = where_clause(ts, at, clauses)->Ok_0;
            let where_places = if is_keyword(ts, at, "WHERE"@) {
                lemma_predicate_within(ts, at + 1, Clause::Where);
                let run_places = lemma_predicate_in_order(ts, at + 1, Clause::Where);
                let (run, behind) = predicate(ts, at + 1, Clause::Where)->Ok_0;
                lemma_leaves_of_one_more(clauses, DqlTree::Where(run));
                lemma_picks_both(ts, from, behind_where, (from, at), places, leaves_of_all(clauses), (at + 1, behind_where), run_places, run);
                places + run_places
            } else {
                places
            };
            assert(picks(ts, from, behind_where, where_places, leaves_of_all(filtered)));
            let (grouped, behind_group) = group_by_clause(ts, behind_where, filtered)->Ok_0;
            let group_places = if is_keyword(ts, behind_where, "GROUP"@) {
                lemma_column_list_advances(ts, behind_where + 2);
                let column_places = lemma_column_list_in_order(ts, behind_where + 2);
                let (columns, behind) = column_list(ts, behind_where + 2)->Ok_0;
                lemma_leaves_of_one_more(filtered, DqlTree::GroupBy(columns));
                lemma_picks_both(ts, from, behind_group, (from, behind_where), where_places, leaves_of_all(filtered), (behind_where + 2, behind_group), column_places, columns);
                where_places + column_places
            } else {
                where_places
            };
            assert(picks(ts, from, behind_group, group_places, leaves_of_all(grouped)));
            if is_keyword(ts, behind_group, "HAVING"@) {
                lemma_predicate_within(ts, behind_group + 1, Clause::Having);
                let run_places = lemma_predicate_in_order(ts, behind_group + 1, Clause::Having);
                let (run, behind) = predicate(ts, behind_group + 1, Clause::Having)->Ok_0;
                lemma_leaves_of_one_more(grouped, DqlTree::Having(run));
                lemma_picks_both(ts, from, end, (from, behind_group), group_places, leaves_of_all(grouped), (behind_group + 1, end), run_places, run);
                group_places + run_places
            } else {
                group_places
            }
        },
    }
}

/// The tokens of a select are picked from the stretch that it was read from.
pub proof fn lemma_select_in_order(ts: Seq<Lexeme>, at: int, depth: nat) -> (all: Seq<int>)
    requires
        0 <= at <= ts.len() <= usize::MAX,
    ensures
        select(ts, at, depth) matches Ok((tree, end)) ==> picks(ts, at, end, all, leaves(tree)),
    decreases MAX_NESTING - depth, 3int, ts.len() - at,
{
    match select(ts, at, depth) {
        Err(e) => Seq::empty(),
        Ok((tree, end)) => {
            lemma_column_list_advances(ts, at + 1);
            let column_places = lemma_column_list_in_order(ts, at + 1);
            let (columns, behind_columns) = column_list(ts, at + 1)->Ok_0;
            lemma_source_advances(ts, behind_columns + 1, depth);
            let from_places = lemma_source_in_order(ts, behind_columns + 1, depth);
            let (from, behind_source) = source(ts, behind_columns + 1, depth)->Ok_0;
            let first = seq![DqlTree::Select(columns), DqlTree::From(from)];
            lemma_leaves_of_two(DqlTree::Select(columns), DqlTree::From(from));
            lemma_picks_both(ts, at, behind_source, (at + 1, behind_columns), column_places, columns, (behind_columns + 1, behind_source), from_places, source_leaves(from));
            lemma_joins_within(ts, behind_source, depth, first);
            let join_places = lemma_joins_in_order(
                ts,
                at,
                behind_source,
                depth,
                first,
                column_places + from_places,
            );
            let (joined, behind_joins) = joins(ts, behind_source, depth, first)->Ok_0;
            lemma_tail_clauses_in_order(ts, at, behind_joins, joined, join_places)
        },
    }
}

/// The tokens of a query and of the set operations behind it are picked from the
/// stretch that all of them were read from.
pub proof fn lemma_set_operations_in_order(
    ts: Seq<Lexeme>,
    from: int,
    at: int,
    depth: nat,
    left: DqlTree,
    places: Seq<int>,
) -> (all: Seq<int>)
    requires
        0 <= from <= at <= ts.len() <= usize::MAX,
        picks(ts, from, at, places, leaves(left)),
    ensures
        set_operations(ts, at, depth, left) matches Ok((tree, end)) ==> picks(
            ts,
            from,
            end,
            all,
            leaves(tree),
        ),
    decreases MAX_NESTING - depth, 4int, ts.len() - at,
{
    if is_keyword(ts, at, "UNION"@) {
        let all_rows = is_keyword(ts, at + 1, "ALL"@);
        let start = if all_rows {
            at + 2
        } else {
            at + 1
        };
        lemma_select_advances(ts, start, depth);
        match select(ts, start, depth) {
            Err(e) => Seq::empty(),
            Ok((right, end)) => {
                let right_places = lemma_select_in_order(ts, start, depth);
                lemma_picks_both(ts, from, end, (from, at), places, leaves(left), (start, end), right_places, leaves(right));
                lemma_leaves_of_united(left, all_rows, right);
                lemma_set_operations_in_order(
                    ts,
                    from,
                    end,
                    depth,
                    united(left, all_rows, right),
                    places + right_places,
                )
            },
        }
    } else {
        places
    }
}

/// The tokens of a query are picked from the stretch that it was read from.
pub proof fn lemma_query_in_order(ts: Seq<Lexeme>, at: int, depth: nat) -> (all: Seq<int>)
    requires
        0 <= at <= ts.len() <= usize::MAX,
    ensures
        query(ts, at, depth) matches Ok((tree, end)) ==> picks(ts, at, end, all, leaves(tree)),
    decreases MAX_NESTING - depth, 5int, ts.len() - at,
{
    lemma_select_advances(ts, at, depth);
    match select(ts, at, depth) {
        Err(e) => Seq::empty(),
        Ok((first, end)) => {
            let first_places = lemma_select_in_order(ts, at, depth);
            lemma_set_operations_in_order(ts, at, end, depth, first, first_places)
        },
    }
}

/// The tokens of the bindings of a `WITH` clause, behind those of the bindings read
/// before, are picked from the stretch that all of them were read from.
pub proof fn lemma_bindings_in_order(
    ts: Seq<Lexeme>,
    from: int,
    at: int,
    found: Seq<BindingTree>,
    places: Seq<int>,
) -> (all: Seq<int>)
    requires
        0 <= from <= at <= ts.len() <= usize::MAX,
        picks(ts, from, at, places, leaves_of_bindings(found)),
    ensures
        bindings(ts, at, found) matches Ok((result, end)) ==> picks(
            ts,
            from,
            end,
            all,
            leaves_of_bindings(result),
        ),
    decreases ts.len() - at,
{
    lemma_binding_advances(ts, at);
    match binding(ts, at) {
        Err(e) => Seq::empty(),
        Ok((bound, end)) => {
            lemma_query_advances(ts, at + 3, 1);
            let body_places = lemma_query_in_order(ts, at + 3, 1);
            let (body, behind_body) = query(ts, at + 3, 1)->Ok_0;
            assert(picks(ts, at, at + 1, seq![at], seq![ts[at]]));
            lemma_picks_both(ts, from, at + 1, (from, at), places, leaves_of_bindings(found), (at, at + 1), seq![at], seq![ts[at]]);
            lemma_picks_both(ts, from, end, (from, at + 1), places + seq![at], leaves_of_bindings(found) + seq![ts[at]], (at + 3, behind_body), body_places, leaves(body));
            assert(found.push(bound).drop_last() =~= found);
            let grown = places + seq![at] + body_places;
            if is_delimiter(ts, end, ","@) {
                lemma_bindings_in_order(ts, from, end + 1, found.push(bound), grown)
            } else {
                grown
            }
        },
    }
}

/// The tokens that the tree of a statement holds are tokens of the input, each
/// taken once and in the order of the input: the builder neither reorders nor
/// repeats a token.
pub proof fn law_tokens_stay_in_order(ts: Seq<Lexeme>) -> (places: Seq<int>)
    requires
        ts.len() <= usize::MAX,
    ensures
        statement(ts) matches Ok(tree) ==> picks(ts, 0, ts.len() as int, places, leaves(tree)),
{
    match statement(ts) {
        Err(e) => Seq::empty(),
        Ok(tree) => {
            if is_keyword(ts, 0, "WITH"@) {
                lemma_bindings_advances(ts, 1, Seq::empty());
                let bound_places = lemma_bindings_in_order(
                    ts,
                    0,
                    1,
                    Seq::empty(),
                    Seq::empty(),
                );
                let (bound, behind_with) = bindings(ts, 1, Seq::empty())->Ok_0;
                lemma_query_advances(ts, behind_with, 0);
                let body_places = lemma_query_in_order(ts, behind_with, 0);
                let (body, end) = query(ts, behind_with, 0)->Ok_0;
                lemma_picks_both(ts, 0, ts.len() as int, (0, behind_with), bound_places, leaves_of_bindings(bound), (behind_with, end), body_places, leaves(body));
                bound_places + body_places
            } else {
                lemma_query_advances(ts, 0, 0);
                lemma_query_in_order(ts, 0, 0)
            }
        },
    }
}

} // verus!
