use rust_csv_parser::token::duplicate_all;
use rust_csv_parser::{Token, TokenType};

#[test]
fn a_duplicate_has_the_same_content() {
    let token = Token {
        token_type: TokenType::Record,
        value: vec!["a".to_string(), "".to_string(), "b c".to_string()],
        line: 7,
    };
    let copy = token.duplicate();
    assert_eq!(copy.token_type, TokenType::Record);
    assert_eq!(copy.value, token.value);
    assert_eq!(copy.line, 7);
}

#[test]
fn duplicates_of_a_vector() {
    let tokens = vec![
        Token { token_type: TokenType::Record, value: vec!["1".to_string()], line: 1 },
        Token { token_type: TokenType::Eof, value: vec![], line: 2 },
    ];
    let copy = duplicate_all(&tokens);
    assert_eq!(copy.len(), 2);
    assert_eq!(copy[0].value, vec!["1"]);
    assert_eq!(copy[0].line, 1);
    assert_eq!(copy[1].token_type, TokenType::Eof);
    assert!(copy[1].value.is_empty());
}
