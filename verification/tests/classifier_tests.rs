use dql::lexer::Lexer;
use dql::parser::Parser;
use dql::types::{match_patterns, normalize, Token, TokenType};

fn chars(text: &str) -> Vec<char> {
    text.chars().collect()
}

fn classify(text: &str) -> Token {
    Token::classify(&chars(text))
}

fn kind(text: &str) -> TokenType {
    classify(text).token_type
}

fn token(token_type: TokenType, value: &str) -> Token {
    Token { token_type, value: value.to_string() }
}

fn tokenize(query: &str) -> Vec<Token> {
    let chars: Vec<char> = query.chars().collect();
    let raw_tokens: Vec<&[char]> = Lexer::new(&chars).collect();
    Parser::new(&raw_tokens).collect()
}

#[test]
fn split_operators_classify_like_unsplit_ones() {
    let expected = vec![
        token(TokenType::Identifier, "COLUMN_A"),
        token(TokenType::Operator, ">="),
        token(TokenType::Number, "42"),
    ];
    assert_eq!(tokenize("COLUMN_A > = 42"), expected);
    assert_eq!(tokenize("COLUMN_A >= 42"), expected);
}

#[test]
fn digits_are_a_number_and_reserved_words_are_keywords() {
    assert_eq!(classify("42"), token(TokenType::Number, "42"));
    assert_eq!(classify("SELECT"), token(TokenType::Keyword, "SELECT"));
    assert_eq!(match_patterns("SELECT"), vec![true, true, false, false, false, false, false]);
    assert_eq!(match_patterns("42"), vec![false, false, false, false, true, false, false]);
}

#[test]
fn every_reserved_word_is_a_keyword() {
    let words = [
        "SELECT", "FROM", "WHERE", "JOIN", "WITH", "AS", "UNION", "GROUP", "BY", "HAVING",
        "ORDER", "DESC", "ASC", "DISTINCT", "LIKE", "BETWEEN", "IN", "IS", "NULL", "AND", "OR",
        "NOT", "LIMIT", "TOP", "ALL", "ANY", "EXISTS", "INNER", "LEFT", "RIGHT", "FULL", "OUTER",
    ];
    assert_eq!(words.len(), 32);
    for word in words {
        assert_eq!(kind(word), TokenType::Keyword, "{}", word);
    }
}

#[test]
fn keywords_are_matched_whole_and_with_case() {
    assert_eq!(kind("select"), TokenType::Identifier);
    assert_eq!(kind("SELECTED"), TokenType::Identifier);
    assert_eq!(kind("ASCII"), TokenType::Identifier);
    assert_eq!(kind("ON"), TokenType::Identifier);
    assert_eq!(kind("CASE"), TokenType::Identifier);
    assert_eq!(kind("ROWNUM"), TokenType::Identifier);
}

#[test]
fn each_kind_has_an_example() {
    assert_eq!(kind("TABLE_NAME"), TokenType::Identifier);
    assert_eq!(kind("_x1"), TokenType::Identifier);
    assert_eq!(kind("<="), TokenType::Operator);
    assert_eq!(kind(">="), TokenType::Operator);
    assert_eq!(kind("<>"), TokenType::Operator);
    assert_eq!(kind("="), TokenType::Operator);
    assert_eq!(kind("<"), TokenType::Operator);
    assert_eq!(kind(">"), TokenType::Operator);
    assert_eq!(kind("''"), TokenType::Literal);
    assert_eq!(kind("'abc'"), TokenType::Literal);
    assert_eq!(kind("0"), TokenType::Number);
    assert_eq!(kind("0042"), TokenType::Number);
    assert_eq!(kind(";"), TokenType::Delimiter);
    assert_eq!(kind(","), TokenType::Delimiter);
    assert_eq!(kind("("), TokenType::Delimiter);
    assert_eq!(kind(")"), TokenType::Delimiter);
    assert_eq!(kind("*"), TokenType::Asterisk);
}

#[test]
fn what_no_pattern_takes_is_a_mismatch() {
    assert_eq!(kind(""), TokenType::Mismatch);
    assert_eq!(kind("   "), TokenType::Mismatch);
    assert_eq!(kind("?"), TokenType::Mismatch);
    assert_eq!(kind(");"), TokenType::Mismatch);
    assert_eq!(kind("=="), TokenType::Mismatch);
    assert_eq!(kind("=>"), TokenType::Mismatch);
    assert_eq!(kind("42abc"), TokenType::Mismatch);
    assert_eq!(kind("'a'b'"), TokenType::Mismatch);
    assert_eq!(kind("**"), TokenType::Mismatch);
    assert_eq!(kind("é"), TokenType::Mismatch);
    assert_eq!(classify(") ;"), token(TokenType::Mismatch, ");"));
}

#[test]
fn all_whitespace_is_stripped() {
    assert_eq!(normalize(&chars(" > \t=\n")), ">=");
    assert_eq!(normalize(&chars("a\u{a0}b\u{2003}c")), "abc");
    assert_eq!(normalize(&chars("")), "");
    assert_eq!(classify(" < \r\n > "), token(TokenType::Operator, "<>"));
}

#[test]
fn classifying_the_normalized_text_gives_the_same_token() {
    for raw in ["> =", " SELECT ", "4 2", "( ", "* ", "' '", "?  ?", "A B", ""] {
        let once = classify(raw);
        let again = classify(&once.value);
        assert_eq!(once, again, "{:?}", raw);
    }
}

#[test]
fn the_first_match_wins() {
    assert_eq!(TokenType::from_matches(&[true, true, false, false, false, false, false]), TokenType::Keyword);
    assert_eq!(TokenType::from_matches(&[false, true, false, false, true, false, false]), TokenType::Identifier);
    assert_eq!(TokenType::from_matches(&[false, false, true, true, true, true, true]), TokenType::Operator);
    assert_eq!(TokenType::from_matches(&[false, false, false, true, false, false, false]), TokenType::Literal);
    assert_eq!(TokenType::from_matches(&[false, false, false, false, true, false, false]), TokenType::Number);
    assert_eq!(TokenType::from_matches(&[false, false, false, false, false, true, true]), TokenType::Delimiter);
    assert_eq!(TokenType::from_matches(&[false, false, false, false, false, false, true]), TokenType::Asterisk);
    assert_eq!(TokenType::from_matches(&[false, false, false, false, false, false, false]), TokenType::Mismatch);
    assert_eq!(TokenType::from_matches(&[]), TokenType::Mismatch);
    assert_eq!(TokenType::from_matches(&[false, false, true]), TokenType::Operator);
    assert_eq!(TokenType::from_matches(&[false, false, false, false, false, false, false, true]), TokenType::Mismatch);
}

#[test]
fn kinds_are_ranked_in_the_order_of_their_priority() {
    let kinds: Vec<TokenType> = (0..9).map(TokenType::ranked).collect();
    assert_eq!(
        kinds,
        vec![
            TokenType::Keyword,
            TokenType::Identifier,
            TokenType::Operator,
            TokenType::Literal,
            TokenType::Number,
            TokenType::Delimiter,
            TokenType::Asterisk,
            TokenType::Mismatch,
            TokenType::Mismatch,
        ]
    );
    assert_eq!(dql::types::PATTERN_COUNT, 7);
    assert!(TokenType::Mismatch.pattern().is_none());
    assert_eq!(TokenType::Number.pattern(), Some("^[0-9]+$"));
}

#[test]
fn from_a_slice_of_chars() {
    let raw = chars("> =");
    assert_eq!(Token::from(&raw[..]), token(TokenType::Operator, ">="));
    let into: Token = (&raw[..]).into();
    assert_eq!(into, token(TokenType::Operator, ">="));
    assert_eq!(into.duplicate(), into);
}

#[test]
fn the_lexer_hands_out_maximal_runs() {
    let text = chars("  12ab _x,y  <  = 'q'");
    let mut lexer = Lexer::new(&text);
    let mut seen: Vec<String> = Vec::new();
    while let Some(raw) = lexer.next_token() {
        seen.push(raw.iter().collect());
    }
    assert_eq!(seen, vec!["12", "ab", "_", "x", ",", "y", "<  = '", "q", "'"]);
    assert!(lexer.next_token().is_none());
}

#[test]
fn a_text_of_whitespace_has_no_token() {
    assert!(Lexer::new(&chars("")).next_token().is_none());
    assert!(Lexer::new(&chars(" \t\n ")).collect().is_empty());
}

#[test]
fn the_parser_classifies_one_raw_token_at_a_time() {
    let first = chars("SELECT");
    let second = chars("* ");
    let raw_tokens: Vec<&[char]> = vec![&first, &second];
    let mut parser = Parser::new(&raw_tokens);
    assert_eq!(parser.next_token(), Some(token(TokenType::Keyword, "SELECT")));
    assert_eq!(parser.next_token(), Some(token(TokenType::Asterisk, "*")));
    assert_eq!(parser.next_token(), None);
    assert_eq!(parser.next_token(), None);
}
