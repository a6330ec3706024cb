use vstd::prelude::*;
use crate::grammar::{
    advances, binding, bindings, column_list, ends_predicate, fail, group_by_clause, is_column,
    is_delimiter, is_keyword, is_kind, is_on, is_word, join, join_head, joins,
    lemma_column_list_advances, more_columns, predicate, predicate_end, query, select,
    set_operations, source, starts_join, statement, tail_clauses, united, where_clause, within,
    Clause, Parsed, MAX_NESTING,
};
use crate::interpreter::{Expected, SyntaxError};
use crate::tree::{
    binding_tree_of, binding_trees, lemma_tree_of_lists, source_tree_of, tree_of, trees,
    Binding, BindingTree, DqlNode, DqlTree, Source, SourceTree,
};
use crate::types::{lexemes, Lexeme, Token, TokenType};

verus! {

/// What was read as tokens, in the terms of the grammar.
pub open spec fn tokens_read(r: Result<(Vec<Token>, usize), SyntaxError>) -> Parsed<
    Seq<Lexeme>,
> {
    match r {
        Ok((tokens, end)) => Ok((lexemes(tokens@), end as int)),
        Err(e) => Err(e),
    }
}

/// The index that was found, in the terms of the grammar.
pub open spec fn end_found(r: Result<usize, SyntaxError>) -> Result<int, SyntaxError> {
    match r {
        Ok(end) => Ok(end as int),
        Err(e) => Err(e),
    }
}

/// What was read as a source, in the terms of the grammar.
pub open spec fn source_read(r: Result<(Source, usize), SyntaxError>) -> Parsed<
    SourceTree,
> {
    match r {
        Ok((from, end)) => Ok((source_tree_of(from), end as int)),
        Err(e) => Err(e),
    }
}

/// What was read as a node, in the terms of the grammar.
pub open spec fn node_read(r: Result<(DqlNode, usize), SyntaxError>) -> Parsed<
    DqlTree,
> {
    match r {
        Ok((node, end)) => Ok((tree_of(node), end as int)),
        Err(e) => Err(e),
    }
}

/// What was read as a list of nodes, in the terms of the grammar.
pub open spec fn nodes_read(r: Result<(Vec<DqlNode>, usize), SyntaxError>) -> Parsed<
    Seq<DqlTree>,
> {
    match r {
        Ok((nodes, end)) => Ok((trees(nodes@), end as int)),
        Err(e) => Err(e),
    }
}

/// What was read as a binding, in the terms of the grammar.
pub open spec fn binding_read(r: Result<(Binding, usize), SyntaxError>) -> Parsed<
    BindingTree,
> {
    match r {
        Ok((bound, end)) => Ok((binding_tree_of(bound), end as int)),
        Err(e) => Err(e),
    }
}

/// What was read as a list of bindings, in the terms of the grammar.
pub open spec fn bindings_read(r: Result<(Vec<Binding>, usize), SyntaxError>) -> Parsed<
    Seq<BindingTree>,
> {
    match r {
        Ok((bound, end)) => Ok((binding_trees(bound@), end as int)),
        Err(e) => Err(e),
    }
}

/// The failure at index `at` for want of `expected`.
fn failure<T>(at: usize, expected: Expected) -> (r: Result<T, SyntaxError>)
    ensures
        r == fail::<T>(at as int, expected),
{
    Err(SyntaxError { position: at, expected })
}

/// Whether the token at `at` is of `kind`.
fn kind_at(tokens: &[Token], at: usize, kind: TokenType) -> (b: bool)
    ensures
        b == is_kind(lexemes(tokens@), at as int, kind),
{
    at < tokens.len() && tokens[at].token_type == kind
}

/// Whether the token at `at` is of `kind` and reads `word`.
fn word_at(tokens: &[Token], at: usize, kind: TokenType, word: &str) -> (b: bool)
    ensures
        b == is_word(lexemes(tokens@), at as int, kind, word@),
{
    at < tokens.len() && tokens[at].token_type == kind && tokens[at].value.as_str().eq(word)
}

/// Whether the token at `at` is the keyword `word`.
fn keyword_at(tokens: &[Token], at: usize, word: &str) -> (b: bool)
    ensures
        b == is_keyword(lexemes(tokens@), at as int, word@),
{
    word_at(tokens, at, TokenType::Keyword, word)
}

/// Whether the token at `at` is the delimiter `word`.
fn delimiter_at(tokens: &[Token], at: usize, word: &str) -> (b: bool)
    ensures
        b == is_delimiter(lexemes(tokens@), at as int, word@),
{
    word_at(tokens, at, TokenType::Delimiter, word)
}

/// Whether the token at `at` reads `ON`.
fn on_at(tokens: &[Token], at: usize) -> (b: bool)
    ensures
        b == is_on(lexemes(tokens@), at as int),
{
    word_at(tokens, at, TokenType::Identifier, "ON") || word_at(
        tokens,
        at,
        TokenType::Keyword,
        "ON",
    )
}

/// Whether the token at `at` can stand as a column.
fn column_at(tokens: &[Token], at: usize) -> (b: bool)
    ensures
        b == is_column(lexemes(tokens@), at as int),
{
    kind_at(tokens, at, TokenType::Identifier) || kind_at(tokens, at, TokenType::Number) || kind_at(
        tokens,
        at,
        TokenType::Literal,
    )
}

/// Whether the token at `at` is one of the keywords that a join starts with.
fn join_starts_at(tokens: &[Token], at: usize) -> (b: bool)
    requires
        at < tokens.len(),
    ensures
        b == starts_join(lexemes(tokens@)[at as int]),
{
    keyword_at(tokens, at, "JOIN") || keyword_at(tokens, at, "INNER") || keyword_at(
        tokens,
        at,
        "LEFT",
    ) || keyword_at(tokens, at, "RIGHT") || keyword_at(tokens, at, "FULL")
}

/// Whether the token at `at`, met outside all parentheses of a predicate of `clause`,
/// ends it.
fn predicate_ends_at(tokens: &[Token], at: usize, clause: Clause) -> (b: bool)
    requires
        at < tokens.len(),
    ensures
        b == ends_predicate(clause, lexemes(tokens@)[at as int]),
{
    if delimiter_at(tokens, at, ";") || keyword_at(tokens, at, "UNION") {
        true
    } else {
        let before_having = match clause {
            Clause::Having => false,
            _ => keyword_at(tokens, at, "GROUP") || keyword_at(tokens, at, "HAVING"),
        };
        let before_where = match clause {
            Clause::On => keyword_at(tokens, at, "WHERE") || join_starts_at(tokens, at),
            _ => false,
        };
        before_having || before_where
    }
}

/// Copies the tokens from `from` up to `to`.
fn copy_tokens(tokens: &[Token], from: usize, to: usize) -> (copy: Vec<Token>)
    requires
        from <= to <= tokens.len(),
    ensures
        lexemes(copy@) == lexemes(tokens@).subrange(from as int, to as int),
{
    let mut copy: Vec<Token> = Vec::new();
    let mut at: usize = from;
    while at < to
        invariant
            from <= at <= to <= tokens.len(),
            copy@.len() == at - from,
            forall|i: int| 0 <= i < copy@.len() ==> (#[trigger] copy@[i])@ == tokens@[from + i]@,
        decreases to - at,
    {
        copy.push(tokens[at].duplicate());
        at += 1;
    }
    assert(lexemes(copy@) =~= lexemes(tokens@).subrange(from as int, to as int));
    copy
}

/// Reads `'*' | column (',' column)*` at `at`.
fn read_column_list(tokens: &[Token], at: usize) -> (r: Result<(Vec<Token>, usize), SyntaxError>)
    requires
        at <= tokens.len(),
    ensures
        tokens_read(r) == column_list(lexemes(tokens@), at as int),
        advances(tokens_read(r), at as int, tokens.len() as int),
{
    let ghost ts = lexemes(tokens@);
    proof {
        lemma_column_list_advances(ts, at as int);
    }
    let mut columns: Vec<Token> = Vec::new();
    if kind_at(tokens, at, TokenType::Asterisk) {
        columns.push(tokens[at].duplicate());
        assert(lexemes(columns@) =~= seq![ts[at as int]]);
        return Ok((columns, at + 1));
    }
    if !column_at(tokens, at) {
        return failure(at, Expected::ColumnList);
    }
    columns.push(tokens[at].duplicate());
    assert(lexemes(columns@) =~= seq![ts[at as int]]);
    let mut end: usize = at + 1;
    while delimiter_at(tokens, end, ",")
        invariant
            ts == lexemes(tokens@),
            at < end <= tokens.len(),
            column_list(ts, at as int) == more_columns(ts, end as int, lexemes(columns@)),
        decreases tokens.len() - end,
    {
        if !column_at(tokens, end + 1) {
            return failure(end + 1, Expected::Column);
        }
        let ghost before = lexemes(columns@);
        columns.push(tokens[end + 1].duplicate());
        assert(lexemes(columns@) =~= before.push(ts[end + 1]));
        end += 2;
    }
    Ok((columns, end))
}

/// Finds where the predicate of `clause` that starts at `at` ends.
fn find_predicate_end(tokens: &[Token], at: usize, clause: Clause) -> (r: Result<
    usize,
    SyntaxError,
>)
    requires
        at <= tokens.len(),
    ensures
        end_found(r) == predicate_end(lexemes(tokens@), at as int, 0, clause),
        r matches Ok(end) ==> at <= end < tokens.len(),
        r matches Err(e) ==> at <= e.position <= tokens.len(),
{
    let ghost ts = lexemes(tokens@);
    let mut end: usize = at;
    let mut open: usize = 0;
    while end < tokens.len()
        invariant
            ts == lexemes(tokens@),
            at <= end <= tokens.len(),
            open <= end - at,
            predicate_end(ts, at as int, 0, clause) == predicate_end(
                ts,
                end as int,
                open as nat,
                clause,
            ),
        decreases tokens.len() - end,
    {
        if kind_at(tokens, end, TokenType::Mismatch) {
            return failure(end, Expected::KnownToken);
        }
        if delimiter_at(tokens, end, "(") {
            open += 1;
        } else if delimiter_at(tokens, end, ")") {
            if open == 0 {
                return Ok(end);
            }
            open -= 1;
        } else if open == 0 && predicate_ends_at(tokens, end, clause) {
            return Ok(end);
        }
        end += 1;
    }
    failure(tokens.len(), Expected::PredicateEnd)
}

/// Reads the predicate of `clause` that starts at `at`.
fn read_predicate(tokens: &[Token], at: usize, clause: Clause) -> (r: Result<
    (Vec<Token>, usize),
    SyntaxError,
>)
    requires
        at <= tokens.len(),
    ensures
        tokens_read(r) == predicate(lexemes(tokens@), at as int, clause),
        within(tokens_read(r), at as int, tokens.len() as int),
        r matches Ok((_, end)) ==> end < tokens.len(),
{
    match find_predicate_end(tokens, at, clause) {
        Ok(end) => Ok((copy_tokens(tokens, at, end), end)),
        Err(e) => Err(e),
    }
}

/// Reads `identifier | '(' query ')'` at `at`, at nesting level `depth`.
fn read_source(tokens: &[Token], at: usize, depth: usize) -> (r: Result<
    (Source, usize),
    SyntaxError,
>)
    requires
        at <= tokens.len(),
        depth <= MAX_NESTING,
    ensures
        source_read(r) == source(lexemes(tokens@), at as int, depth as nat),
        advances(source_read(r), at as int, tokens.len() as int),
    decreases MAX_NESTING - depth, 0int, tokens.len() - at,
{
    if kind_at(tokens, at, TokenType::Identifier) {
        return Ok((Source::Table(tokens[at].duplicate()), at + 1));
    }
    if !delimiter_at(tokens, at, "(") {
        return failure(at, Expected::Source);
    }
    if depth >= MAX_NESTING {
        return failure(at, Expected::ShallowerNesting);
    }
    match read_query(tokens, at + 1, depth + 1) {
        Err(e) => Err(e),
        Ok((inner, end)) => {
            if delimiter_at(tokens, end, ")") {
                Ok((Source::Subquery(Box::new(inner)), end + 1))
            } else {
                failure(end, Expected::ClosingParen)
            }
        },
    }
}

/// Reads `[(INNER | LEFT | RIGHT | FULL) [OUTER]] JOIN` at `at`.
fn read_join_head(tokens: &[Token], at: usize) -> (r: Result<usize, SyntaxError>)
    requires
        at <= tokens.len(),
    ensures
        end_found(r) == join_head(lexemes(tokens@), at as int),
        r matches Ok(end) ==> at < end <= tokens.len(),
        r matches Err(e) ==> at <= e.position <= tokens.len(),
{
    let side = keyword_at(tokens, at, "INNER") || keyword_at(tokens, at, "LEFT") || keyword_at(
        tokens,
        at,
        "RIGHT",
    ) || keyword_at(tokens, at, "FULL");
    let mut behind: usize = at;
    if side {
        behind += 1;
        if keyword_at(tokens, behind, "OUTER") {
            behind += 1;
        }
    }
    if keyword_at(tokens, behind, "JOIN") {
        Ok(behind + 1)
    } else {
        failure(behind, Expected::Join)
    }
}

/// Reads one join at `at`.
fn read_join(tokens: &[Token], at: usize, depth: usize) -> (r: Result<
    (DqlNode, usize),
    SyntaxError,
>)
    requires
        at <= tokens.len(),
        depth <= MAX_NESTING,
    ensures
        node_read(r) == join(lexemes(tokens@), at as int, depth as nat),
        advances(node_read(r), at as int, tokens.len() as int),
    decreases MAX_NESTING - depth, 1int, tokens.len() - at,
{
    let behind_head = match read_join_head(tokens, at) {
        Ok(behind_head) => behind_head,
        Err(e) => {
            return Err(e);
        },
    };
    match read_source(tokens, behind_head, depth) {
        Err(e) => Err(e),
        Ok((joined, behind_source)) => {
            if !on_at(tokens, behind_source) {
                return failure(behind_source, Expected::On);
            }
            match read_predicate(tokens, behind_source + 1, Clause::On) {
                Err(e) => Err(e),
                Ok((on, end)) => {
                    let condition = DqlNode::Where(on);
                    assert(tree_of(condition) == DqlTree::Where(lexemes(on@)));
                    Ok((DqlNode::Join(joined, Box::new(condition)), end))
                },
            }
        },
    }
}

/// Reads the joins of a query from `at` on, behind the `clauses` read before.
fn read_joins(tokens: &[Token], at: usize, depth: usize, clauses: Vec<DqlNode>) -> (r: Result<
    (Vec<DqlNode>, usize),
    SyntaxError,
>)
    requires
        at <= tokens.len(),
        depth <= MAX_NESTING,
    ensures
        nodes_read(r) == joins(lexemes(tokens@), at as int, depth as nat, trees(clauses@)),
        within(nodes_read(r), at as int, tokens.len() as int),
    decreases MAX_NESTING - depth, 2int, tokens.len() - at,
{
    if at < tokens.len() && join_starts_at(tokens, at) {
        match read_join(tokens, at, depth) {
            Err(e) => Err(e),
            Ok((joined, end)) => {
                let ghost before = trees(clauses@);
                let ghost tree = tree_of(joined);
                let mut clauses = clauses;
                clauses.push(joined);
                assert(trees(clauses@) =~= before.push(tree));
                read_joins(tokens, end, depth, clauses)
            },
        }
    } else {
        Ok((clauses, at))
    }
}

/// Reads `[WHERE predicate] [GROUP BY column_list] [HAVING predicate]` at `at`, behind
/// the `clauses` read before.
fn read_tail_clauses(tokens: &[Token], at: usize, clauses: Vec<DqlNode>) -> (r: Result<
    (Vec<DqlNode>, usize),
    SyntaxError,
>)
    requires
        at <= tokens.len(),
    ensures
        nodes_read(r) == tail_clauses(lexemes(tokens@), at as int, trees(clauses@)),
        within(nodes_read(r), at as int, tokens.len() as int),
{
    let ghost ts = lexemes(tokens@);
    let ghost start = trees(clauses@);
    let mut clauses = clauses;
    let mut end: usize = at;
    if keyword_at(tokens, end, "WHERE") {
        match read_predicate(tokens, end + 1, Clause::Where) {
            Err(e) => {
                return Err(e);
            },
            Ok((run, behind)) => {
                let ghost before = trees(clauses@);
                clauses.push(DqlNode::Where(run));
                assert(trees(clauses@) =~= before.push(tree_of(DqlNode::Where(run))));
                end = behind;
            },
        }
    }
    assert(where_clause(ts, at as int, start) == nodes_read(Ok((clauses, end))));
    let ghost behind_where = end;
    let ghost filtered = trees(clauses@);
    if keyword_at(tokens, end, "GROUP") {
        if !keyword_at(tokens, end + 1, "BY") {
            return failure(end + 1, Expected::By);
        }
        match read_column_list(tokens, end + 2) {
            Err(e) => {
                return Err(e);
            },
            Ok((columns, behind)) => {
                let ghost before = trees(clauses@);
                clauses.push(DqlNode::GroupBy(columns));
                assert(trees(clauses@) =~= before.push(tree_of(DqlNode::GroupBy(columns))));
                end = behind;
            },
        }
    }
    assert(group_by_clause(ts, behind_where as int, filtered) == nodes_read(Ok((clauses, end))));
    if keyword_at(tokens, end, "HAVING") {
        match read_predicate(tokens, end + 1, Clause::Having) {
            Err(e) => {
                return Err(e);
            },
            Ok((run, behind)) => {
                let ghost before = trees(clauses@);
                clauses.push(DqlNode::Having(run));
                assert(trees(clauses@) =~= before.push(tree_of(DqlNode::Having(run))));
                end = behind;
            },
        }
    }
    Ok((clauses, end))
}

/// Reads `SELECT column_list FROM source join* [WHERE ..] [GROUP BY ..] [HAVING ..]`.
fn read_select(tokens: &[Token], at: usize, depth: usize) -> (r: Result<
    (DqlNode, usize),
    SyntaxError,
>)
    requires
        at <= tokens.len(),
        depth <= MAX_NESTING,
    ensures
        node_read(r) == select(lexemes(tokens@), at as int, depth as nat),
        advances(node_read(r), at as int, tokens.len() as int),
    decreases MAX_NESTING - depth, 3int, tokens.len() - at,
{
    if !keyword_at(tokens, at, "SELECT") {
        return failure(at, Expected::Select);
    }
    let (columns, behind_columns) = match read_column_list(tokens, at + 1) {
        Ok(read) => read,
        Err(e) => {
            return Err(e);
        },
    };
    if !keyword_at(tokens, behind_columns, "FROM") {
        return failure(behind_columns, Expected::From);
    }
    let (from, behind_source) = match read_source(tokens, behind_columns + 1, depth) {
        Ok(read) => read,
        Err(e) => {
            return Err(e);
        },
    };
    let ghost first = seq![tree_of(DqlNode::Select(columns)), tree_of(DqlNode::From(from))];
    let mut clauses: Vec<DqlNode> = Vec::new();
    clauses.push(DqlNode::Select(columns));
    clauses.push(DqlNode::From(from));
    assert(trees(clauses@) =~= first);
    let (joined, behind_joins) = match read_joins(tokens, behind_source, depth, clauses) {
        Ok(read) => read,
        Err(e) => {
            return Err(e);
        },
    };
    match read_tail_clauses(tokens, behind_joins, joined) {
        Err(e) => Err(e),
        Ok((all, end)) => {
            let node = DqlNode::Query(all);
            proof {
                lemma_tree_of_lists(node);
            }
            Ok((node, end))
        },
    }
}

/// Joins `left` and `right` by `UNION`, or by `UNION ALL` where `all` holds.
fn unite(left: DqlNode, all: bool, right: DqlNode) -> (node: DqlNode)
    ensures
        tree_of(node) == united(tree_of(left), all, tree_of(right)),
{
    proof {
        lemma_tree_of_lists(left);
    }
    let ghost right_tree = tree_of(right);
    match left {
        DqlNode::Union(branches) => {
            if !all {
                let ghost before = trees(branches@);
                let mut branches = branches;
                branches.push(right);
                assert(trees(branches@) =~= before.push(right_tree));
                let node = DqlNode::Union(branches);
                proof {
                    lemma_tree_of_lists(node);
                }
                node
            } else {
                pair(DqlNode::Union(branches), all, right)
            }
        },
        DqlNode::UnionAll(branches) => {
            if all {
                let ghost before = trees(branches@);
                let mut branches = branches;
                branches.push(right);
                assert(trees(branches@) =~= before.push(right_tree));
                let node = DqlNode::UnionAll(branches);
                proof {
                    lemma_tree_of_lists(node);
                }
                node
            } else {
                pair(DqlNode::UnionAll(branches), all, right)
            }
        },
        other => pair(other, all, right),
    }
}

/// A new `Union` node, or `UnionAll` where `all` holds, over `left` and `right`.
fn pair(left: DqlNode, all: bool, right: DqlNode) -> (node: DqlNode)
    ensures
        tree_of(node) == (if all {
            DqlTree::UnionAll(seq![tree_of(left), tree_of(right)])
        } else {
            DqlTree::Union(seq![tree_of(left), tree_of(right)])
        }),
{
    let ghost both = seq![tree_of(left), tree_of(right)];
    let mut branches: Vec<DqlNode> = Vec::new();
    branches.push(left);
    branches.push(right);
    assert(trees(branches@) =~= both);
    let node = if all {
        DqlNode::UnionAll(branches)
    } else {
        DqlNode::Union(branches)
    };
    proof {
        lemma_tree_of_lists(node);
    }
    node
}

/// Reads `(UNION [ALL] select)*` at `at`, behind the query `left`.
fn read_set_operations(tokens: &[Token], at: usize, depth: usize, left: DqlNode) -> (r: Result<
    (DqlNode, usize),
    SyntaxError,
>)
    requires
        at <= tokens.len(),
        depth <= MAX_NESTING,
    ensures
        node_read(r) == set_operations( lexemes(tokens@), at as int, depth as nat, tree_of(left), ),
        within(node_read(r), at as int, tokens.len() as int),
    decreases MAX_NESTING - depth, 4int, tokens.len() - at,
{
    if !keyword_at(tokens, at, "UNION") {
        return Ok((left, at));
    }
    let all = keyword_at(tokens, at + 1, "ALL");
    let start = if all {
        at + 2
    } else {
        at + 1
    };
    match read_select(tokens, start, depth) {
        Err(e) => Err(e),
        Ok((right, end)) => read_set_operations(tokens, end, depth, unite(left, all, right)),
    }
}

/// Reads `select (UNION [ALL] select)*` at `at`, at nesting level `depth`.
fn read_query(tokens: &[Token], at: usize, depth: usize) -> (r: Result<
    (DqlNode, usize),
    SyntaxError,
>)
    requires
        at <= tokens.len(),
        depth <= MAX_NESTING,
    ensures
        node_read(r) == query(lexemes(tokens@), at as int, depth as nat),
        advances(node_read(r), at as int, tokens.len() as int),
    decreases MAX_NESTING - depth, 5int, tokens.len() - at,
{
    match read_select(tokens, at, depth) {
        Err(e) => Err(e),
        Ok((first, end)) => read_set_operations(tokens, end, depth, first),
    }
}

/// Reads `identifier AS '(' query ')'` at `at`.
fn read_binding(tokens: &[Token], at: usize) -> (r: Result<(Binding, usize), SyntaxError>)
    requires
        at <= tokens.len(),
    ensures
        binding_read(r) == binding(lexemes(tokens@), at as int),
        advances(binding_read(r), at as int, tokens.len() as int),
{
    if !kind_at(tokens, at, TokenType::Identifier) {
        return failure(at, Expected::BindingName);
    }
    if !keyword_at(tokens, at + 1, "AS") {
        return failure(at + 1, Expected::As);
    }
    if !delimiter_at(tokens, at + 2, "(") {
        return failure(at + 2, Expected::OpeningParen);
    }
    match read_query(tokens, at + 3, 1) {
        Err(e) => Err(e),
        Ok((body, end)) => {
            if delimiter_at(tokens, end, ")") {
                Ok((Binding { name: tokens[at].duplicate(), body }, end + 1))
            } else {
                failure(end, Expected::ClosingParen)
            }
        },
    }
}

/// Reads `binding (',' binding)*` at `at`.
fn read_bindings(tokens: &[Token], at: usize) -> (r: Result<(Vec<Binding>, usize), SyntaxError>)
    requires
        at <= tokens.len(),
    ensures
        bindings_read(r) == bindings(lexemes(tokens@), at as int, Seq::empty()),
        advances(bindings_read(r), at as int, tokens.len() as int),
{
    let ghost ts = lexemes(tokens@);
    let mut found: Vec<Binding> = Vec::new();
    let mut start: usize = at;
    assert(binding_trees(found@) =~= Seq::empty());
    loop
        invariant
            ts == lexemes(tokens@),
            at <= start <= tokens.len(),
            bindings(ts, at as int, Seq::empty()) == bindings(
                ts,
                start as int,
                binding_trees(found@),
            ),
        decreases tokens.len() - start,
    {
        match read_binding(tokens, start) {
            Err(e) => {
                return Err(e);
            },
            Ok((bound, end)) => {
                let ghost before = binding_trees(found@);
                found.push(bound);
                assert(binding_trees(found@) =~= before.push(binding_tree_of(bound)));
                if delimiter_at(tokens, end, ",") {
                    start = end + 1;
                } else {
                    return Ok((found, end));
                }
            },
        }
    }
}

/// What a build gives, in the terms of the grammar.
pub open spec fn built(r: Result<DqlNode, SyntaxError>) -> Result<DqlTree, SyntaxError> {
    match r {
        Ok(node) => Ok(tree_of(node)),
        Err(e) => Err(e),
    }
}

/// Builds the syntax tree of one statement from its classified tokens.
pub struct DqlBuilder<'t> {
    tokens: &'t [Token],
}

impl<'t> View for DqlBuilder<'t> {
    type V = Seq<Token>;

    /// The tokens of the statement.
    closed spec fn view(&self) -> Seq<Token> {
        self.tokens@
    }
}

impl<'t> DqlBuilder<'t> {
    pub fn new(tokens: &'t [Token]) -> (builder: Self)
        ensures
            builder@ == tokens@,
    {
        Self { tokens }
    }

    /// Reads the tokens as one statement: gives its tree where they are one, and else
    /// the first place where they stop being one, with what was expected there.
    pub fn build(&self) -> (r: Result<DqlNode, SyntaxError>)
        ensures
            built(r) == statement(lexemes(self@)),
            r matches Err(e) ==> e.position <= self@.len(),
    {
        let tokens = self.tokens;
        let with = keyword_at(tokens, 0, "WITH");
        let (bound, behind_with) = if with {
            match read_bindings(tokens, 1) {
                Ok(read) => read,
                Err(e) => {
                    return Err(e);
                },
            }
        } else {
            (Vec::new(), 0)
        };
        match read_query(tokens, behind_with, 0) {
            Err(e) => Err(e),
            Ok((body, end)) => {
                let behind = if delimiter_at(tokens, end, ";") {
                    end + 1
                } else {
                    end
                };
                if behind != tokens.len() {
                    return failure(behind, Expected::EndOfStatement);
                }
                if with {
                    let node = DqlNode::With(bound, Box::new(body));
                    proof {
                        lemma_tree_of_lists(node);
                    }
                    Ok(node)
                } else {
                    Ok(body)
                }
            },
        }
    }
}

} // verus!
