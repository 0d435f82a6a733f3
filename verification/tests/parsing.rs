use hydrogen::grammar::{Expr, Statement};
use hydrogen::parser::{AstParserError, Parser, Program, TokenIterator, TokenStream};
use hydrogen::token::Token;
use hydrogen::tokenization::tokenize;

fn parse(source: &str) -> Result<Program, AstParserError> {
    let tokens = tokenize(source.chars().collect()).expect("the text lexes");
    TokenStream::new(tokens).parse()
}

fn ident(name: &str) -> Token {
    Token::Ident(name.to_string())
}

#[test]
fn the_empty_program_parses() {
    let program = parse("").unwrap();
    assert!(program.statements().is_empty());
}

#[test]
fn parsing_exit_of_a_literal() {
    let program = parse("exit(7);").unwrap();
    assert_eq!(program.statements(), &vec![Statement::Exit(Expr::I64(7))]);
}

#[test]
fn let_then_exit() {
    let program = parse("let x = 5; exit(x);").unwrap();
    assert_eq!(
        program.statements(),
        &vec![
            Statement::Let { ident: "x".to_string(), expr: Expr::I64(5) },
            Statement::Exit(Expr::Ident("x".to_string())),
        ]
    );
}

#[test]
fn a_second_declaration_of_a_name_is_an_error() {
    let error = parse("let x = 1; let x = 2; exit(x);").unwrap_err();
    assert_eq!(error, AstParserError::IdentifierAlreadyUsed("x".to_string()));
}

#[test]
fn a_reference_to_an_undeclared_name_is_an_error() {
    let error = parse("exit(y);").unwrap_err();
    assert_eq!(error, AstParserError::IdentifierUndeclared("y".to_string()));
}

#[test]
fn a_reference_before_the_declaration_is_an_error() {
    let error = parse("exit(x); let x = 1;").unwrap_err();
    assert_eq!(error, AstParserError::IdentifierUndeclared("x".to_string()));
}

#[test]
fn a_name_is_declared_before_its_expression_is_read() {
    let program = parse("let x = x;").unwrap();
    assert_eq!(
        program.statements(),
        &vec![Statement::Let { ident: "x".to_string(), expr: Expr::Ident("x".to_string()) }]
    );
}

#[test]
fn a_statement_cannot_start_with_another_token() {
    assert_eq!(parse("5;").unwrap_err(), AstParserError::UnexpectedToken(Token::I64Literal(5)));
    assert_eq!(parse("x = 1;").unwrap_err(), AstParserError::UnexpectedToken(ident("x")));
    assert_eq!(parse(";").unwrap_err(), AstParserError::UnexpectedToken(Token::Semi));
}

#[test]
fn an_expression_is_a_literal_or_a_name() {
    assert_eq!(parse("exit(let);").unwrap_err(), AstParserError::UnexpectedToken(Token::Let));
    assert_eq!(parse("let x = ;").unwrap_err(), AstParserError::UnexpectedToken(Token::Semi));
}

#[test]
fn let_needs_a_name() {
    assert_eq!(
        parse("let 5 = 1;").unwrap_err(),
        AstParserError::ExpectedToken(ident("ident"))
    );
    assert_eq!(parse("let = 1;").unwrap_err(), AstParserError::ExpectedToken(ident("ident")));
}

#[test]
fn missing_punctuation_is_named() {
    assert_eq!(parse("let x 1;").unwrap_err(), AstParserError::ExpectedToken(Token::Eq));
    assert_eq!(parse("exit 1);").unwrap_err(), AstParserError::ExpectedToken(Token::ParenOpen));
    assert_eq!(parse("exit(1;").unwrap_err(), AstParserError::ExpectedToken(Token::ParenClose));
    assert_eq!(parse("exit(1) exit(2);").unwrap_err(), AstParserError::ExpectedToken(Token::Semi));
}

#[test]
fn the_end_of_the_stream_inside_a_statement() {
    assert_eq!(parse("let").unwrap_err(), AstParserError::TokenIsNone);
    assert_eq!(parse("let x").unwrap_err(), AstParserError::TokenIsNone);
    assert_eq!(parse("let x =").unwrap_err(), AstParserError::TokenIsNone);
    assert_eq!(parse("exit").unwrap_err(), AstParserError::TokenIsNone);
    assert_eq!(parse("exit(").unwrap_err(), AstParserError::TokenIsNone);
    assert_eq!(parse("exit(1").unwrap_err(), AstParserError::TokenIsNone);
}

#[test]
fn a_missing_last_semicolon_is_the_end_of_the_stream() {
    assert_eq!(parse("exit(1)").unwrap_err(), AstParserError::TokenIsNone);
    assert_eq!(parse("let x = 1").unwrap_err(), AstParserError::TokenIsNone);
    assert_eq!(parse("exit(0); exit(0)").unwrap_err(), AstParserError::TokenIsNone);
    let tokens = vec![Token::Exit, Token::ParenOpen, Token::I64Literal(0), Token::ParenClose];
    assert_eq!(TokenStream::new(tokens).parse().unwrap_err(), AstParserError::TokenIsNone);
}

#[test]
fn another_token_in_place_of_the_semicolon_is_a_mismatch() {
    assert_eq!(parse("exit(1) )").unwrap_err(), AstParserError::ExpectedToken(Token::Semi));
    assert_eq!(parse("let x = 1 x").unwrap_err(), AstParserError::ExpectedToken(Token::Semi));
}

#[test]
fn the_first_error_wins() {
    assert_eq!(
        parse("exit(a); let x = 1; let x = 2;").unwrap_err(),
        AstParserError::IdentifierUndeclared("a".to_string())
    );
    assert_eq!(
        parse("let a = 1; let a = b;").unwrap_err(),
        AstParserError::IdentifierAlreadyUsed("a".to_string())
    );
}

#[test]
fn a_name_stays_declared_when_its_statement_fails() {
    let tokens = vec![Token::Let, ident("x"), Token::Eq, Token::Semi, ident("x")];
    let mut stream = TokenStream::new(tokens);
    let mut declared = vstd::hash_set::StringHashSet::new();
    let error = <Statement as hydrogen::parser::TreeParser>::try_from_iter(&mut stream, &mut declared)
        .unwrap_err();
    assert_eq!(error, AstParserError::UnexpectedToken(Token::Semi));
    assert!(declared.contains("x"));
    assert_eq!(stream.next_token(), Ok(ident("x")));
}

#[test]
fn the_stream_hands_out_tokens_in_order() {
    let mut stream = TokenStream::new(vec![Token::Let, ident("x"), Token::Eq]);
    assert_eq!(stream.peek_token(), Ok(&Token::Let));
    assert_eq!(stream.peek_token(), Ok(&Token::Let));
    assert_eq!(stream.next_token(), Ok(Token::Let));
    assert_eq!(stream.expect_token(ident("anything")), Ok(ident("x")));
    assert_eq!(
        stream.expect_token(Token::Semi),
        Err(AstParserError::ExpectedToken(Token::Semi))
    );
    assert_eq!(stream.peek_token(), Err(AstParserError::TokenIsNone));
    assert_eq!(stream.next_token(), Err(AstParserError::TokenIsNone));
    assert_eq!(stream.expect_token(Token::Semi), Err(AstParserError::TokenIsNone));
}
