use regex::errors::CompileError;
use regex::lexer::Lexer;
use regex::parser::Parser;
use regex::token::Token;
use regex::{compile, postfix_to_nfa};

#[test]
fn lexer_classifies_every_character() {
    let mut lexer = Lexer::new("a(b*|+?.)".to_string());
    assert_eq!(lexer.get_token(), Token::Char('a'));
    assert_eq!(lexer.get_token(), Token::LeftParen);
    assert_eq!(lexer.get_token(), Token::Char('b'));
    assert_eq!(lexer.get_token(), Token::Star);
    assert_eq!(lexer.get_token(), Token::Alt);
    assert_eq!(lexer.get_token(), Token::Plus);
    assert_eq!(lexer.get_token(), Token::QMark);
    assert_eq!(lexer.get_token(), Token::Concat);
    assert_eq!(lexer.get_token(), Token::RightParen);
    assert_eq!(lexer.get_token(), Token::End);
    assert_eq!(lexer.get_token(), Token::End);
}

#[test]
fn token_names_and_symbols() {
    assert_eq!(Token::Star.name(), "Star");
    assert_eq!(Token::Alt.name(), "Alt");
    assert_eq!(Token::Char('x').name(), "Char");
    assert_eq!(Token::Star.symbol(), Some('*'));
    assert_eq!(Token::LeftParen.symbol(), Some('('));
    assert_eq!(Token::RightParen.symbol(), Some(')'));
    assert_eq!(Token::Alt.symbol(), Some('|'));
    assert_eq!(Token::Concat.symbol(), Some('.'));
    assert_eq!(Token::Plus.symbol(), Some('+'));
    assert_eq!(Token::QMark.symbol(), Some('?'));
    assert_eq!(Token::Char('x').symbol(), None);
    assert_eq!(Token::End.symbol(), None);
}

#[test]
fn parser_emits_postfix_token_order() {
    let mut parser = Parser::new(Lexer::new("ab|c".to_string()));
    let tokens = parser.parse().expect("pattern should parse");
    assert_eq!(
        tokens,
        vec![
            Token::Char('a'),
            Token::Char('b'),
            Token::Concat,
            Token::Char('c'),
            Token::Alt,
        ]
    );
}

#[test]
fn parser_handles_grouping_and_repetition() {
    let mut parser = Parser::new(Lexer::new("(a|b)*".to_string()));
    let tokens = parser.parse().expect("pattern should parse");
    assert_eq!(
        tokens,
        vec![Token::Char('a'), Token::Char('b'), Token::Alt, Token::Star]
    );
}

#[test]
fn unmatched_open_paren_is_a_parse_error() {
    let err = compile("(a".to_string());
    assert!(matches!(err, Err(CompileError::Parse(_))));
}

#[test]
fn bare_close_paren_is_a_parse_error() {
    let err = compile(")".to_string());
    assert!(matches!(err, Err(CompileError::Parse(_))));
}

#[test]
fn trailing_input_is_a_parse_error() {
    let err = compile("a)b".to_string());
    assert!(matches!(err, Err(CompileError::Parse(_))));
}

#[test]
fn operator_without_operand_is_a_parse_error() {
    assert!(compile("*".to_string()).is_err());
    assert!(compile("a|".to_string()).is_err());
    assert!(compile("|a".to_string()).is_err());
}

#[test]
fn parse_errors_carry_a_description() {
    match compile("(a".to_string()) {
        Err(e) => assert!(!e.message().is_empty()),
        Ok(_) => panic!("should not compile"),
    }
}

#[test]
fn bad_postfix_stream_is_a_construction_error() {
    assert!(postfix_to_nfa("|").is_err());
    assert!(postfix_to_nfa(".").is_err());
    assert!(postfix_to_nfa("*").is_err());
    assert!(postfix_to_nfa("ab").is_err());
    assert!(postfix_to_nfa("(").is_err());
}

#[test]
fn construction_errors_carry_a_description() {
    match postfix_to_nfa("|") {
        Err(e) => assert!(!e.message().is_empty()),
        Ok(_) => panic!("should not build"),
    }
}
