use turtle_parser::keywords::keyword_lookup;
use turtle_parser::lexer::{is_digit, is_name, is_name_start, LexFail, Lexer};
use turtle_parser::token::{Token, TokenType};

fn chars(s: &str) -> Vec<char> {
    s.chars().collect()
}

#[test]
fn keyword_table_exact_match() {
    assert_eq!(keyword_lookup(&chars("nest")), Some(TokenType::NEST));
    assert_eq!(keyword_lookup(&chars("of")), Some(TokenType::OF));
    assert_eq!(
        keyword_lookup(&chars("Leatherback")),
        Some(TokenType::LEATHERBACK)
    );
    assert_eq!(keyword_lookup(&chars("Green")), Some(TokenType::GREEN));
    assert_eq!(keyword_lookup(&chars("turtles")), Some(TokenType::TURTLES));
    assert_eq!(keyword_lookup(&chars("~~~")), Some(TokenType::SHORELINE));
    assert_eq!(keyword_lookup(&chars("---")), Some(TokenType::HORIZON));
}

#[test]
fn keyword_table_rejects_near_misses() {
    assert_eq!(keyword_lookup(&chars("nests")), None);
    assert_eq!(keyword_lookup(&chars("Nest")), None);
    assert_eq!(keyword_lookup(&chars("green")), None);
    assert_eq!(keyword_lookup(&chars("~~")), None);
    assert_eq!(keyword_lookup(&chars("----")), None);
    assert_eq!(keyword_lookup(&chars("")), None);
}

#[test]
fn name_alphabet() {
    assert!(is_name_start('a'));
    assert!(is_name_start('Z'));
    assert!(is_name_start('@'));
    assert!(is_name_start('\\'));
    assert!(!is_name_start('3'));
    assert!(!is_name_start('\''));
    assert!(!is_name_start('"'));
    assert!(!is_name_start('!'));
    assert!(is_digit('0'));
    assert!(is_digit('9'));
    assert!(!is_digit('a'));
    assert!(is_name('3'));
    assert!(is_name('\''));
    assert!(!is_name(' '));
}

#[test]
fn lexes_a_name_greedily() {
    let mut lexer = Lexer::new(chars("  abc12' rest"));
    let tok = lexer.lex(&[TokenType::NAME]).unwrap();
    assert_eq!(tok, Token::Name(chars("abc12'")));
}

#[test]
fn classifies_keyword_over_name() {
    let mut lexer = Lexer::new(chars("Green"));
    let tok = lexer.lex(&[TokenType::GREEN, TokenType::NAME]).unwrap();
    assert_eq!(tok, Token::Keyword(TokenType::GREEN));
}

#[test]
fn validity_gate_returns_offending_token() {
    let mut lexer = Lexer::new(chars("42"));
    match lexer.lex(&[TokenType::NAME]) {
        Err(LexFail::Wrong(tok)) => assert_eq!(tok, Token::Number(42)),
        other => panic!("expected a kind mismatch, got {:?}", other),
    }
}

#[test]
fn structural_tokens_one_char_each() {
    let mut lexer = Lexer::new(chars("!(){}"));
    let kinds = [
        TokenType::EXCL,
        TokenType::LPAREN,
        TokenType::RPAREN,
        TokenType::LBRACE,
        TokenType::RBRACE,
    ];
    for k in kinds {
        let tok = lexer.lex(&[k]).unwrap();
        assert_eq!(tok, Token::Keyword(k));
    }
    assert_eq!(lexer.lex(&[TokenType::EOF]).unwrap(), Token::Eof);
}

#[test]
fn eof_after_trailing_whitespace() {
    let mut lexer = Lexer::new(chars("   \t\r\n"));
    assert_eq!(lexer.lex(&[TokenType::EOF]).unwrap(), Token::Eof);
}

#[test]
fn string_token_drops_quotes() {
    let mut lexer = Lexer::new(chars("\"hi there\"x"));
    let tok = lexer.lex(&[TokenType::STRING]).unwrap();
    assert_eq!(tok, Token::Str(chars("hi there")));
    let tok = lexer.lex(&[TokenType::NAME]).unwrap();
    assert_eq!(tok, Token::Name(chars("x")));
}

#[test]
fn token_kind_and_unwraps() {
    assert_eq!(Token::Name(chars("x")).typ(), TokenType::NAME);
    assert_eq!(Token::Number(5).typ(), TokenType::NUMBER);
    assert_eq!(Token::Str(chars("s")).typ(), TokenType::STRING);
    assert_eq!(Token::Keyword(TokenType::OF).typ(), TokenType::OF);
    assert_eq!(Token::Eof.typ(), TokenType::EOF);
    assert_eq!(Token::Name(chars("x")).unwrap_name(), chars("x"));
    assert_eq!(Token::Number(5).unwrap_number(), 5);
    assert_eq!(Token::Str(chars("s")).unwrap_string(), chars("s"));
}
