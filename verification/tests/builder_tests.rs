use dql::dql_builder::DqlBuilder;
use dql::interpreter::{DQLError, Expected, Interpreter, SyntaxError};
use dql::lexer::Lexer;
use dql::parser::Parser;
use dql::tree::{Binding, DqlNode, Source};
use dql::types::{Token, TokenType};

fn tokenize(query: &str) -> Vec<Token> {
    let chars: Vec<char> = query.chars().collect();
    let raw_tokens: Vec<&[char]> = Lexer::new(&chars).collect();
    Parser::new(&raw_tokens).collect()
}

fn build(query: &str) -> Result<DqlNode, SyntaxError> {
    let tokens = tokenize(query);
    DqlBuilder::new(&tokens).build()
}

fn error(position: usize, expected: Expected) -> Result<DqlNode, SyntaxError> {
    Err(SyntaxError { position, expected })
}

fn token(token_type: TokenType, value: &str) -> Token {
    Token { token_type, value: value.to_string() }
}

fn name(value: &str) -> Token {
    token(TokenType::Identifier, value)
}

fn keyword(value: &str) -> Token {
    token(TokenType::Keyword, value)
}

fn number(value: &str) -> Token {
    token(TokenType::Number, value)
}

fn operator(value: &str) -> Token {
    token(TokenType::Operator, value)
}

fn delimiter(value: &str) -> Token {
    token(TokenType::Delimiter, value)
}

fn names(values: &[&str]) -> Vec<Token> {
    values.iter().map(|value| name(value)).collect()
}

fn table(value: &str) -> DqlNode {
    DqlNode::From(Source::Table(name(value)))
}

fn plain(columns: &[&str], from: &str) -> DqlNode {
    DqlNode::Query(vec![DqlNode::Select(names(columns)), table(from)])
}

#[test]
fn select_star_builds_a_query_of_two_clauses() {
    assert_eq!(
        build("SELECT * FROM TABLE_NAME;"),
        Ok(DqlNode::Query(vec![
            DqlNode::Select(vec![token(TokenType::Asterisk, "*")]),
            table("TABLE_NAME"),
        ]))
    );
}

#[test]
fn the_terminator_is_optional() {
    assert_eq!(build("SELECT A, B FROM T"), Ok(plain(&["A", "B"], "T")));
    assert_eq!(build("SELECT A, B FROM T;"), Ok(plain(&["A", "B"], "T")));
}

#[test]
fn columns_may_be_numbers() {
    assert_eq!(
        build("SELECT 1, A FROM T"),
        Ok(DqlNode::Query(vec![DqlNode::Select(vec![number("1"), name("A")]), table("T")]))
    );
}

#[test]
fn where_keeps_its_predicate_as_a_token_run() {
    assert_eq!(
        build("SELECT COLUMN_A, COLUMN_B FROM TABLE_NAME WHERE COLUMN_A > = 42;"),
        Ok(DqlNode::Query(vec![
            DqlNode::Select(names(&["COLUMN_A", "COLUMN_B"])),
            table("TABLE_NAME"),
            DqlNode::Where(vec![name("COLUMN_A"), operator(">="), number("42")]),
        ]))
    );
}

#[test]
fn subquery_where_does_not_end_the_outer_query() {
    let query = "SELECT COLUMN_A, COLUMN_B FROM ( \
                 SELECT COLUMN_A, COLUMN_B, COLUMN_C FROM TABLE_NAME WHERE COLUMN_B <= 42 \
                 ) WHERE COLUMN_A > = 42;";
    let inner = DqlNode::Query(vec![
        DqlNode::Select(names(&["COLUMN_A", "COLUMN_B", "COLUMN_C"])),
        table("TABLE_NAME"),
        DqlNode::Where(vec![name("COLUMN_B"), operator("<="), number("42")]),
    ]);
    assert_eq!(
        build(query),
        Ok(DqlNode::Query(vec![
            DqlNode::Select(names(&["COLUMN_A", "COLUMN_B"])),
            DqlNode::From(Source::Subquery(Box::new(inner))),
            DqlNode::Where(vec![name("COLUMN_A"), operator(">="), number("42")]),
        ]))
    );
}

#[test]
fn clause_keywords_in_parentheses_stay_in_the_predicate() {
    let query = "SELECT A FROM T WHERE A IN (SELECT B FROM U WHERE B = 1 GROUP BY B) GROUP BY A;";
    assert_eq!(
        build(query),
        Ok(DqlNode::Query(vec![
            DqlNode::Select(names(&["A"])),
            table("T"),
            DqlNode::Where(vec![
                name("A"),
                keyword("IN"),
                delimiter("("),
                keyword("SELECT"),
                name("B"),
                keyword("FROM"),
                name("U"),
                keyword("WHERE"),
                name("B"),
                operator("="),
                number("1"),
                keyword("GROUP"),
                keyword("BY"),
                name("B"),
                delimiter(")"),
            ]),
            DqlNode::GroupBy(names(&["A"])),
        ]))
    );
}

#[test]
fn cte_builds_a_with_node() {
    let query = "WITH CTE AS (SELECT A,B,C FROM T) SELECT A,B FROM CTE WHERE A >= 42;";
    assert_eq!(
        build(query),
        Ok(DqlNode::With(
            vec![Binding { name: name("CTE"), body: plain(&["A", "B", "C"], "T") }],
            Box::new(DqlNode::Query(vec![
                DqlNode::Select(names(&["A", "B"])),
                table("CTE"),
                DqlNode::Where(vec![name("A"), operator(">="), number("42")]),
            ])),
        ))
    );
}

fn with_two_bindings(between: Vec<Token>) -> Vec<Token> {
    let mut tokens = vec![keyword("WITH"), name("X"), keyword("AS"), delimiter("(")];
    tokens.extend(tokenize("SELECT A FROM T"));
    tokens.push(delimiter(")"));
    tokens.extend(between);
    tokens.extend(vec![name("Y"), keyword("AS"), delimiter("(")]);
    tokens.extend(tokenize("SELECT B FROM X"));
    tokens.push(delimiter(")"));
    tokens.extend(tokenize("SELECT B FROM Y"));
    tokens
}

#[test]
fn several_bindings_are_kept_in_order() {
    let tokens = with_two_bindings(vec![delimiter(",")]);
    assert_eq!(
        DqlBuilder::new(&tokens).build(),
        Ok(DqlNode::With(
            vec![
                Binding { name: name("X"), body: plain(&["A"], "T") },
                Binding { name: name("Y"), body: plain(&["B"], "X") },
            ],
            Box::new(plain(&["B"], "Y")),
        ))
    );
    let tokens = with_two_bindings(vec![]);
    assert_eq!(DqlBuilder::new(&tokens).build(), error(9, Expected::Select));
}

#[test]
fn a_closing_paren_and_a_comma_run_together() {
    let query = "WITH X AS (SELECT A FROM T), Y AS (SELECT B FROM X) SELECT B FROM Y";
    assert_eq!(tokenize(query)[8], token(TokenType::Mismatch, "),"));
    assert_eq!(build(query), error(8, Expected::ClosingParen));
}

#[test]
fn missing_column_list_is_a_syntax_error() {
    assert_eq!(build("SELECT FROM;"), error(1, Expected::ColumnList));
    assert_eq!(build("SELECT FROM T;"), error(1, Expected::ColumnList));
}

#[test]
fn joins_follow_the_source() {
    let query = "SELECT A FROM T LEFT OUTER JOIN U ON A = B INNER JOIN V ON B = C WHERE A > 1;";
    assert_eq!(
        build(query),
        Ok(DqlNode::Query(vec![
            DqlNode::Select(names(&["A"])),
            table("T"),
            DqlNode::Join(
                Source::Table(name("U")),
                Box::new(DqlNode::Where(vec![name("A"), operator("="), name("B")])),
            ),
            DqlNode::Join(
                Source::Table(name("V")),
                Box::new(DqlNode::Where(vec![name("B"), operator("="), name("C")])),
            ),
            DqlNode::Where(vec![name("A"), operator(">"), number("1")]),
        ]))
    );
}

#[test]
fn join_on_a_subquery() {
    let query = "SELECT A FROM T JOIN (SELECT B FROM U) ON A = B;";
    assert_eq!(
        build(query),
        Ok(DqlNode::Query(vec![
            DqlNode::Select(names(&["A"])),
            table("T"),
            DqlNode::Join(
                Source::Subquery(Box::new(plain(&["B"], "U"))),
                Box::new(DqlNode::Where(vec![name("A"), operator("="), name("B")])),
            ),
        ]))
    );
}

#[test]
fn group_by_and_having() {
    let query = "SELECT A FROM T GROUP BY A, B HAVING A > 1;";
    assert_eq!(
        build(query),
        Ok(DqlNode::Query(vec![
            DqlNode::Select(names(&["A"])),
            table("T"),
            DqlNode::GroupBy(names(&["A", "B"])),
            DqlNode::Having(vec![name("A"), operator(">"), number("1")]),
        ]))
    );
}

#[test]
fn group_inside_having_does_not_end_it() {
    let query = "SELECT A FROM T HAVING A > GROUP;";
    assert_eq!(
        build(query),
        Ok(DqlNode::Query(vec![
            DqlNode::Select(names(&["A"])),
            table("T"),
            DqlNode::Having(vec![name("A"), operator(">"), keyword("GROUP")]),
        ]))
    );
}

#[test]
fn unions_of_one_kind_share_a_node() {
    let query = "SELECT A FROM T UNION SELECT B FROM U UNION SELECT C FROM V";
    assert_eq!(
        build(query),
        Ok(DqlNode::Union(vec![plain(&["A"], "T"), plain(&["B"], "U"), plain(&["C"], "V")]))
    );
}

#[test]
fn a_change_of_operator_starts_a_new_node() {
    let query = "SELECT A FROM T UNION SELECT B FROM U UNION ALL SELECT C FROM V UNION ALL SELECT D FROM W";
    assert_eq!(
        build(query),
        Ok(DqlNode::UnionAll(vec![
            DqlNode::Union(vec![plain(&["A"], "T"), plain(&["B"], "U")]),
            plain(&["C"], "V"),
            plain(&["D"], "W"),
        ]))
    );
}

#[test]
fn union_after_where() {
    let query = "SELECT A FROM T WHERE A = 1 UNION ALL SELECT B FROM U;";
    assert_eq!(
        build(query),
        Ok(DqlNode::UnionAll(vec![
            DqlNode::Query(vec![
                DqlNode::Select(names(&["A"])),
                table("T"),
                DqlNode::Where(vec![name("A"), operator("="), number("1")]),
            ]),
            plain(&["B"], "U"),
        ]))
    );
}

#[test]
fn empty_input_wants_select() {
    assert_eq!(build(""), error(0, Expected::Select));
    assert_eq!(build("   "), error(0, Expected::Select));
    assert_eq!(build("FROM T"), error(0, Expected::Select));
}

#[test]
fn each_expectation_has_an_input() {
    assert_eq!(build("SELECT A,"), error(3, Expected::Column));
    assert_eq!(build("SELECT A, FROM T"), error(3, Expected::Column));
    assert_eq!(build("SELECT A T"), error(2, Expected::From));
    assert_eq!(build("SELECT A FROM"), error(3, Expected::Source));
    assert_eq!(build("SELECT A FROM 42"), error(3, Expected::Source));
    assert_eq!(build("SELECT A FROM (SELECT B FROM U"), error(8, Expected::ClosingParen));
    assert_eq!(build("SELECT A FROM (SELECT B FROM U WHERE"), error(9, Expected::PredicateEnd));
    assert_eq!(build("SELECT A FROM T LEFT U"), error(5, Expected::Join));
    assert_eq!(build("SELECT A FROM T INNER OUTER U"), error(6, Expected::Join));
    assert_eq!(build("SELECT A FROM T JOIN U WHERE A = 1;"), error(6, Expected::On));
    assert_eq!(build("SELECT A FROM T GROUP A"), error(5, Expected::By));
    assert_eq!(build("SELECT A FROM T GROUP BY"), error(6, Expected::ColumnList));
    assert_eq!(build("WITH SELECT A FROM T"), error(1, Expected::BindingName));
    assert_eq!(build("WITH X (SELECT A FROM T) SELECT A FROM X"), error(2, Expected::As));
    assert_eq!(build("WITH X AS SELECT A FROM T"), error(3, Expected::OpeningParen));
    assert_eq!(build("WITH X AS (SELECT A FROM T SELECT A FROM X"), error(8, Expected::ClosingParen));
    assert_eq!(build("WITH X AS (SELECT A FROM T)"), error(9, Expected::Select));
    assert_eq!(build("SELECT A FROM T WHERE A = 1"), error(8, Expected::PredicateEnd));
    assert_eq!(build("SELECT A FROM T WHERE A ? 1;"), error(6, Expected::KnownToken));
    assert_eq!(build("SELECT A FROM T; SELECT"), error(5, Expected::EndOfStatement));
    assert_eq!(build("SELECT A FROM T U"), error(4, Expected::EndOfStatement));
    assert_eq!(build("SELECT A FROM T)"), error(4, Expected::EndOfStatement));
}

#[test]
fn an_unmatched_closing_paren_ends_the_predicate_and_is_left_over() {
    assert_eq!(build("SELECT A FROM T WHERE A = 1 ) A"), error(8, Expected::EndOfStatement));
    assert_eq!(build("SELECT A FROM T WHERE A = 1 ) ;"), error(8, Expected::KnownToken));
}

fn nested(levels: usize) -> Vec<Token> {
    let mut tokens = Vec::new();
    for _ in 0..levels {
        tokens.extend(vec![keyword("SELECT"), name("A"), keyword("FROM"), delimiter("(")]);
    }
    tokens.extend(vec![keyword("SELECT"), name("A"), keyword("FROM"), name("T")]);
    for _ in 0..levels {
        tokens.push(delimiter(")"));
    }
    tokens
}

fn nested_tree(levels: usize) -> DqlNode {
    let mut node = plain(&["A"], "T");
    for _ in 0..levels {
        node = DqlNode::Query(vec![
            DqlNode::Select(names(&["A"])),
            DqlNode::From(Source::Subquery(Box::new(node))),
        ]);
    }
    node
}

#[test]
fn nesting_up_to_the_limit_is_built() {
    assert_eq!(dql::grammar::MAX_NESTING, 100);
    assert_eq!(DqlBuilder::new(&nested(3)).build(), Ok(nested_tree(3)));
    assert_eq!(DqlBuilder::new(&nested(100)).build(), Ok(nested_tree(100)));
}

#[test]
fn nesting_beyond_the_limit_is_refused() {
    // each level holds four tokens before its query; the paren of level 101 is token 403
    assert_eq!(DqlBuilder::new(&nested(101)).build(), error(403, Expected::ShallowerNesting));
    assert_eq!(DqlBuilder::new(&nested(500)).build(), error(403, Expected::ShallowerNesting));
}

#[test]
fn a_binding_counts_as_one_level_of_nesting() {
    let wrap = |levels: usize| {
        let mut tokens = vec![keyword("WITH"), name("X"), keyword("AS"), delimiter("(")];
        tokens.extend(nested(levels));
        tokens.push(delimiter(")"));
        tokens.extend(vec![keyword("SELECT"), name("A"), keyword("FROM"), name("X")]);
        tokens
    };
    assert_eq!(
        DqlBuilder::new(&wrap(99)).build(),
        Ok(DqlNode::With(
            vec![Binding { name: name("X"), body: nested_tree(99) }],
            Box::new(plain(&["A"], "X")),
        ))
    );
    assert_eq!(
        DqlBuilder::new(&wrap(100)).build(),
        error(4 + 4 * 99 + 3, Expected::ShallowerNesting)
    );
}

#[test]
fn nested_queries_in_text_need_a_word_between_their_parens() {
    let query = "SELECT A FROM ( SELECT A FROM ( SELECT A FROM T ) WHERE A = 1 ) WHERE A = 1;";
    let condition = || DqlNode::Where(vec![name("A"), operator("="), number("1")]);
    assert_eq!(
        build(query),
        Ok(DqlNode::Query(vec![
            DqlNode::Select(names(&["A"])),
            DqlNode::From(Source::Subquery(Box::new(DqlNode::Query(vec![
                DqlNode::Select(names(&["A"])),
                DqlNode::From(Source::Subquery(Box::new(plain(&["A"], "T")))),
                condition(),
            ])))),
            condition(),
        ]))
    );
    assert_eq!(
        build("SELECT A FROM ( SELECT A FROM ( SELECT A FROM T ) )"),
        error(12, Expected::ClosingParen)
    );
}

#[test]
fn the_builder_reads_tokens_made_by_hand() {
    let tokens = vec![keyword("SELECT"), name("A"), keyword("FROM"), name("T")];
    assert_eq!(DqlBuilder::new(&tokens).build(), Ok(plain(&["A"], "T")));
    let tokens = vec![name("SELECT"), name("A"), keyword("FROM"), name("T")];
    assert_eq!(DqlBuilder::new(&tokens).build(), error(0, Expected::Select));
}

#[test]
fn expectations_read_as_words() {
    assert_eq!(Expected::From.describe(), "expected FROM after SELECT column list");
    assert_eq!(Expected::EndOfStatement.describe(), "trailing tokens");
    assert_eq!(Expected::ShallowerNesting.describe(), "nesting too deep");
    assert_eq!(Expected::ClosingParen.describe(), "expected ')'");
}

#[test]
fn the_interpreter_accepts_what_it_is_given() {
    let tokens = tokenize("SELECT A FROM T;");
    let before = tokens.clone();
    let interpreter = Interpreter::new(&tokens);
    assert!(interpreter.validate().is_ok());
    assert_eq!(tokens, before);
    let nothing: Vec<Token> = Vec::new();
    assert!(Interpreter::new(&nothing).validate().is_ok());
    let wrapped = DQLError::SyntaxError(SyntaxError { position: 1, expected: Expected::ColumnList });
    assert_eq!(wrapped, DQLError::SyntaxError(SyntaxError { position: 1, expected: Expected::ColumnList }));
}

fn source_leaves(source: &Source) -> Vec<Token> {
    match source {
        Source::Table(name) => vec![name.clone()],
        Source::Subquery(query) => leaves(query),
    }
}

fn leaves(node: &DqlNode) -> Vec<Token> {
    match node {
        DqlNode::Select(tokens)
        | DqlNode::Where(tokens)
        | DqlNode::GroupBy(tokens)
        | DqlNode::Having(tokens) => tokens.clone(),
        DqlNode::From(source) => source_leaves(source),
        DqlNode::Join(source, on) => {
            let mut all = source_leaves(source);
            all.extend(leaves(on));
            all
        }
        DqlNode::Union(nodes) | DqlNode::UnionAll(nodes) | DqlNode::Query(nodes) => {
            nodes.iter().flat_map(leaves).collect()
        }
        DqlNode::With(bindings, body) => {
            let mut all = Vec::new();
            for binding in bindings {
                all.push(binding.name.clone());
                all.extend(leaves(&binding.body));
            }
            all.extend(leaves(body));
            all
        }
    }
}

#[test]
fn the_tree_holds_tokens_of_the_input_in_their_order() {
    let query = "WITH CTE AS (SELECT A, B FROM (SELECT A, B FROM T WHERE A IN (1, 2) GROUP BY A) \
                 JOIN U ON A = B) SELECT A FROM CTE WHERE A > 1 UNION ALL SELECT B FROM CTE;";
    let tokens = tokenize(query);
    let tree = DqlBuilder::new(&tokens).build().unwrap();
    let held = leaves(&tree);
    let texts: Vec<&str> = held.iter().map(|token| token.value.as_str()).collect();
    assert_eq!(
        texts,
        vec![
            "CTE", "A", "B", "A", "B", "T", "A", "IN", "(", "1", ",", "2", ")", "A", "U", "A",
            "=", "B", "A", "CTE", "A", ">", "1", "B", "CTE",
        ]
    );
    let mut next = 0;
    for token in &held {
        while tokens[next] != *token {
            next += 1;
        }
        next += 1;
    }
    assert!(next <= tokens.len());
}
