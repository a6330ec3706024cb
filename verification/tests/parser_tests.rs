use dql::lexer::Lexer;
use dql::parser::Parser;
use dql::types::{Token, TokenType};
use regex::Regex;

#[test]
fn parser_select_star(){
    let query = "SELECT * FROM TABLE_NAME;";
    let query_chars: Vec<char> = query.chars().collect();
    let raw_tokens: Vec<&[char]> = Lexer::new(&query_chars).collect();

    let tokens: Vec<Token> = Parser::new(&raw_tokens).collect();
    assert_eq!(tokens, vec![
        Token { token_type: TokenType::Keyword, value: "SELECT".to_string() },
        Token { token_type: TokenType::Asterisk, value: "*".to_string() },
        Token { token_type: TokenType::Keyword, value: "FROM".to_string() },
        Token { token_type: TokenType::Identifier, value: "TABLE_NAME".to_string() },
        Token { token_type: TokenType::Delimiter, value: ";".to_string() },
    ])
}

#[test]
fn parser_simple_select(){
    let query = "SELECT COLUMN_A, COLUMN_B FROM TABLE_NAME;";
    let query_chars: Vec<char> = query.chars().collect();
    let raw_tokens: Vec<&[char]> = Lexer::new(&query_chars).collect();

    let tokens: Vec<Token> = Parser::new(&raw_tokens).collect();
    assert_eq!(tokens, vec![
        Token { token_type: TokenType::Keyword, value: "SELECT".to_string() },
        Token { token_type: TokenType::Identifier, value: "COLUMN_A".to_string() },
        Token { token_type: TokenType::Delimiter, value: ",".to_string() },
        Token { token_type: TokenType::Identifier, value: "COLUMN_B".to_string() },
        Token { token_type: TokenType::Keyword, value: "FROM".to_string() },
        Token { token_type: TokenType::Identifier, value: "TABLE_NAME".to_string() },
        Token { token_type: TokenType::Delimiter, value: ";".to_string() },
    ])
}

#[test]
fn parser_simple_where(){
    let query = "SELECT COLUMN_A, COLUMN_B FROM TABLE_NAME WHERE COLUMN_A >= 42;";
    let query_chars: Vec<char> = query.chars().collect();
    let raw_tokens: Vec<&[char]> = Lexer::new(&query_chars).collect();

    let tokens: Vec<Token> = Parser::new(&raw_tokens).collect();
    assert_eq!(tokens, vec![
        Token { token_type: TokenType::Keyword, value: "SELECT".to_string() },
        Token { token_type: TokenType::Identifier, value: "COLUMN_A".to_string() },
        Token { token_type: TokenType::Delimiter, value: ",".to_string() },
        Token { token_type: TokenType::Identifier, value: "COLUMN_B".to_string() },
        Token { token_type: TokenType::Keyword, value: "FROM".to_string() },
        Token { token_type: TokenType::Identifier, value: "TABLE_NAME".to_string() },
        Token { token_type: TokenType::Keyword, value: "WHERE".to_string() },
        Token { token_type: TokenType::Identifier, value: "COLUMN_A".to_string() },
        Token { token_type: TokenType::Operator, value: ">=".to_string() },
        Token { token_type: TokenType::Number, value: "42".to_string() },
        Token { token_type: TokenType::Delimiter, value: ";".to_string() },
    ])
}

#[test]
fn parser_simple_where_spaced_operators(){
    let query = "SELECT COLUMN_A, COLUMN_B FROM TABLE_NAME WHERE COLUMN_A > = 42;";
    let query_chars: Vec<char> = query.chars().collect();
    let raw_tokens: Vec<&[char]> = Lexer::new(&query_chars).collect();

    let tokens: Vec<Token> = Parser::new(&raw_tokens).collect();
    assert_eq!(tokens, vec![
        Token { token_type: TokenType::Keyword, value: "SELECT".to_string() },
        Token { token_type: TokenType::Identifier, value: "COLUMN_A".to_string() },
        Token { token_type: TokenType::Delimiter, value: ",".to_string() },
        Token { token_type: TokenType::Identifier, value: "COLUMN_B".to_string() },
        Token { token_type: TokenType::Keyword, value: "FROM".to_string() },
        Token { token_type: TokenType::Identifier, value: "TABLE_NAME".to_string() },
        Token { token_type: TokenType::Keyword, value: "WHERE".to_string() },
        Token { token_type: TokenType::Identifier, value: "COLUMN_A".to_string() },
        Token { token_type: TokenType::Operator, value: ">=".to_string() },
        Token { token_type: TokenType::Number, value: "42".to_string() },
        Token { token_type: TokenType::Delimiter, value: ";".to_string() },
    ])
}

#[test]
fn parser_simple_cte(){
    let query = r#"
        WITH CTE AS (
            SELECT
                COLUMN_A,
                COLUMN_B,
                COLUMN_C
            FROM TABLE_NAME
        )
        SELECT
            COLUMN_A,
            COLUMN_B
        FROM CTE
        WHERE COLUMN_A > = 42;
    "#;
    let re = Regex::new(r"[\n\t\r]").unwrap();
    let clean_query = re.replace_all(&query, "").to_string();

    let query_chars: Vec<char> = clean_query.chars().collect();
    let raw_tokens: Vec<&[char]> = Lexer::new(&query_chars).collect();

    let tokens: Vec<Token> = Parser::new(&raw_tokens).collect();
    assert_eq!(tokens, vec![
        Token { token_type: TokenType::Keyword, value: "WITH".to_string() },
        Token { token_type: TokenType::Identifier, value: "CTE".to_string() },
        Token { token_type: TokenType::Keyword, value: "AS".to_string() },
        Token { token_type: TokenType::Delimiter, value: "(".to_string() },
        Token { token_type: TokenType::Keyword, value: "SELECT".to_string() },
        Token { token_type: TokenType::Identifier, value: "COLUMN_A".to_string() },
        Token { token_type: TokenType::Delimiter, value: ",".to_string() },
        Token { token_type: TokenType::Identifier, value: "COLUMN_B".to_string() },
        Token { token_type: TokenType::Delimiter, value: ",".to_string() },
        Token { token_type: TokenType::Identifier, value: "COLUMN_C".to_string() },
        Token { token_type: TokenType::Keyword, value: "FROM".to_string() },
        Token { token_type: TokenType::Identifier, value: "TABLE_NAME".to_string() },
        Token { token_type: TokenType::Delimiter, value: ")".to_string() },
        Token { token_type: TokenType::Keyword, value: "SELECT".to_string() },
        Token { token_type: TokenType::Identifier, value: "COLUMN_A".to_string() },
        Token { token_type: TokenType::Delimiter, value: ",".to_string() },
        Token { token_type: TokenType::Identifier, value: "COLUMN_B".to_string() },
        Token { token_type: TokenType::Keyword, value: "FROM".to_string() },
        Token { token_type: TokenType::Identifier, value: "CTE".to_string() },
        Token { token_type: TokenType::Keyword, value: "WHERE".to_string() },
        Token { token_type: TokenType::Identifier, value: "COLUMN_A".to_string() },
        Token { token_type: TokenType::Operator, value: ">=".to_string() },
        Token { token_type: TokenType::Number, value: "42".to_string() },
        Token { token_type: TokenType::Delimiter, value: ";".to_string() },
    ])
}

#[test]
fn parser_simple_subquery(){
    let query = r#"
        SELECT
            COLUMN_A,
            COLUMN_B
        FROM (
            SELECT
                COLUMN_A,
                COLUMN_B,
                COLUMN_C
            FROM TABLE_NAME
            WHERE COLUMN_B <= 42
        )
        WHERE COLUMN_A > = 42;
    "#;
    let re = Regex::new(r"[\n\t\r]").unwrap();
    let clean_query = re.replace_all(&query, "").to_string();

    let query_chars: Vec<char> = clean_query.chars().collect();
    let raw_tokens: Vec<&[char]> = Lexer::new(&query_chars).collect();

    let tokens: Vec<Token> = Parser::new(&raw_tokens).collect();
    assert_eq!(tokens, vec![
        Token { token_type: TokenType::Keyword, value: "SELECT".to_string() },
        Token { token_type: TokenType::Identifier, value: "COLUMN_A".to_string() },
        Token { token_type: TokenType::Delimiter, value: ",".to_string() },
        Token { token_type: TokenType::Identifier, value: "COLUMN_B".to_string() },
        Token { token_type: TokenType::Keyword, value: "FROM".to_string() },
        Token { token_type: TokenType::Delimiter, value: "(".to_string() },
        Token { token_type: TokenType::Keyword, value: "SELECT".to_string() },
        Token { token_type: TokenType::Identifier, value: "COLUMN_A".to_string() },
        Token { token_type: TokenType::Delimiter, value: ",".to_string() },
        Token { token_type: TokenType::Identifier, value: "COLUMN_B".to_string() },
        Token { token_type: TokenType::Delimiter, value: ",".to_string() },
        Token { token_type: TokenType::Identifier, value: "COLUMN_C".to_string() },
        Token { token_type: TokenType::Keyword, value: "FROM".to_string() },
        Token { token_type: TokenType::Identifier, value: "TABLE_NAME".to_string() },
        Token { token_type: TokenType::Keyword, value: "WHERE".to_string() },
        Token { token_type: TokenType::Identifier, value: "COLUMN_B".to_string() },
        Token { token_type: TokenType::Operator, value: "<=".to_string() },
        Token { token_type: TokenType::Number, value: "42".to_string() },
        Token { token_type: TokenType::Delimiter, value: ")".to_string() },
        Token { token_type: TokenType::Keyword, value: "WHERE".to_string() },
        Token { token_type: TokenType::Identifier, value: "COLUMN_A".to_string() },
        Token { token_type: TokenType::Operator, value: ">=".to_string() },
        Token { token_type: TokenType::Number, value: "42".to_string() },
        Token { token_type: TokenType::Delimiter, value: ";".to_string() },
    ])
}
