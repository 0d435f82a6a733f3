use hydrogen::token::{Token, TokenParseError};
use hydrogen::tokenization::{tokenize, Tokenizer};
use std::str::FromStr;

fn lex(source: &str) -> Result<Vec<Token>, TokenParseError> {
    tokenize(source.chars().collect())
}

#[test]
fn control_chars_are_tokens() {
    assert_eq!(Token::try_from('='), Ok(Token::Eq));
    assert_eq!(Token::try_from(';'), Ok(Token::Semi));
    assert_eq!(Token::try_from('('), Ok(Token::ParenOpen));
    assert_eq!(Token::try_from(')'), Ok(Token::ParenClose));
}

#[test]
fn other_chars_are_invalid_control_chars() {
    assert_eq!(Token::try_from('+'), Err(TokenParseError::InvalidControlChar('+')));
    assert_eq!(Token::try_from('a'), Err(TokenParseError::InvalidControlChar('a')));
    assert_eq!(Token::try_from(' '), Err(TokenParseError::InvalidControlChar(' ')));
}

#[test]
fn keywords_come_first() {
    assert_eq!(Token::from_str("let"), Ok(Token::Let));
    assert_eq!(Token::from_str("exit"), Ok(Token::Exit));
    assert_eq!("let".parse::<Token>(), Ok(Token::Let));
}

#[test]
fn words_near_keywords_are_identifiers() {
    assert_eq!(Token::from_str("lets"), Ok(Token::Ident("lets".to_string())));
    assert_eq!(Token::from_str("le"), Ok(Token::Ident("le".to_string())));
    assert_eq!(Token::from_str("Exit"), Ok(Token::Ident("Exit".to_string())));
    assert_eq!(Token::from_str("exit1"), Ok(Token::Ident("exit1".to_string())));
}

#[test]
fn integer_literals() {
    assert_eq!(Token::from_str("0"), Ok(Token::I64Literal(0)));
    assert_eq!(Token::from_str("10"), Ok(Token::I64Literal(10)));
    assert_eq!(Token::from_str("007"), Ok(Token::I64Literal(7)));
    assert_eq!(Token::from_str("+5"), Ok(Token::I64Literal(5)));
    assert_eq!(Token::from_str("-5"), Ok(Token::I64Literal(-5)));
    assert_eq!(Token::from_str("-0"), Ok(Token::I64Literal(0)));
    assert_eq!(
        Token::from_str("9223372036854775807"),
        Ok(Token::I64Literal(i64::MAX))
    );
    assert_eq!(
        Token::from_str("-9223372036854775808"),
        Ok(Token::I64Literal(i64::MIN))
    );
    assert_eq!(
        Token::from_str("0000000000000000000000000000000000000042"),
        Ok(Token::I64Literal(42))
    );
}

#[test]
fn literals_agree_with_the_standard_parser() {
    let words = [
        "", "+", "-", "+-1", "--1", "1-", "1+", "12a", "a12", " 1", "1 ", "1_000", "0x10",
        "9223372036854775806", "9223372036854775807", "9223372036854775808",
        "-9223372036854775807", "-9223372036854775808", "-9223372036854775809",
        "+9223372036854775807", "+9223372036854775808", "18446744073709551616",
        "99999999999999999999999999", "-99999999999999999999999999", "000", "+000", "-000",
        "١٢٣", "1٢",
    ];
    for word in words {
        let expected = word.parse::<i64>().ok();
        let chars: Vec<char> = word.chars().collect();
        assert_eq!(hydrogen::decimal::read_i64(&chars), expected, "{word:?}");
    }
}

#[test]
fn out_of_range_literals_are_invalid() {
    assert_eq!(
        Token::from_str("9223372036854775808"),
        Err(TokenParseError::InvalidToken("9223372036854775808".to_string()))
    );
    assert_eq!(
        Token::from_str("-9223372036854775809"),
        Err(TokenParseError::InvalidToken("-9223372036854775809".to_string()))
    );
}

#[test]
fn identifiers_start_with_an_ascii_letter() {
    assert_eq!(Token::from_str("x"), Ok(Token::Ident("x".to_string())));
    assert_eq!(Token::from_str("Z9_"), Ok(Token::Ident("Z9_".to_string())));
    assert_eq!(Token::from_str("a+b"), Ok(Token::Ident("a+b".to_string())));
    assert_eq!(Token::from_str("né"), Ok(Token::Ident("né".to_string())));
}

#[test]
fn other_words_are_invalid_tokens() {
    assert_eq!(Token::from_str(""), Err(TokenParseError::InvalidToken(String::new())));
    assert_eq!(Token::from_str("_x"), Err(TokenParseError::InvalidToken("_x".to_string())));
    assert_eq!(Token::from_str("9x"), Err(TokenParseError::InvalidToken("9x".to_string())));
    assert_eq!(Token::from_str("én"), Err(TokenParseError::InvalidToken("én".to_string())));
    assert_eq!(Token::from_str("-"), Err(TokenParseError::InvalidToken("-".to_string())));
}

#[test]
fn whitespace_around_punctuation_is_immaterial() {
    let expected = vec![
        Token::Let,
        Token::Ident("x".to_string()),
        Token::Eq,
        Token::I64Literal(10),
        Token::Semi,
    ];
    assert_eq!(lex("let  x=10 ;"), Ok(expected.clone()));
    assert_eq!(lex("let x = 10;"), Ok(expected.clone()));
    assert_eq!(lex("\tlet\nx\r\n=\u{a0}10\u{3000};\n"), Ok(expected));
}

#[test]
fn empty_and_blank_texts_have_no_tokens() {
    assert_eq!(lex(""), Ok(vec![]));
    assert_eq!(lex(" \t\r\n"), Ok(vec![]));
}

#[test]
fn a_word_runs_to_the_end_of_the_text() {
    assert_eq!(lex("exit"), Ok(vec![Token::Exit]));
    assert_eq!(lex("let x"), Ok(vec![Token::Let, Token::Ident("x".to_string())]));
}

#[test]
fn control_chars_split_words() {
    assert_eq!(
        lex("exit(x);"),
        Ok(vec![
            Token::Exit,
            Token::ParenOpen,
            Token::Ident("x".to_string()),
            Token::ParenClose,
            Token::Semi,
        ])
    );
    assert_eq!(lex("(("), Ok(vec![Token::ParenOpen, Token::ParenOpen]));
    assert_eq!(
        lex("a=b"),
        Ok(vec![
            Token::Ident("a".to_string()),
            Token::Eq,
            Token::Ident("b".to_string()),
        ])
    );
}

#[test]
fn negative_literals_are_one_word() {
    assert_eq!(
        lex("exit(-7);"),
        Ok(vec![
            Token::Exit,
            Token::ParenOpen,
            Token::I64Literal(-7),
            Token::ParenClose,
            Token::Semi,
        ])
    );
}

#[test]
fn the_first_invalid_word_is_the_error() {
    assert_eq!(lex("let 9x = 1; @"), Err(TokenParseError::InvalidToken("9x".to_string())));
    assert_eq!(lex("exit(1); #"), Err(TokenParseError::InvalidToken("#".to_string())));
}

#[test]
fn the_tokenizer_hands_out_one_token_per_call() {
    let mut lexer = Tokenizer::new("x = 1y ;".chars().collect());
    assert_eq!(lexer.next_token(), Some(Ok(Token::Ident("x".to_string()))));
    assert_eq!(lexer.next_token(), Some(Ok(Token::Eq)));
    assert_eq!(
        lexer.next_token(),
        Some(Err(TokenParseError::InvalidToken("1y".to_string())))
    );
    assert_eq!(lexer.next_token(), Some(Ok(Token::Semi)));
    assert_eq!(lexer.next_token(), None);
    assert_eq!(lexer.next_token(), None);
}

#[test]
fn tokens_match_by_kind_whatever_they_carry() {
    assert_eq!(Token::Ident("a".to_string()).kind(), Token::Ident("b".to_string()).kind());
    assert_eq!(Token::I64Literal(1).kind(), Token::I64Literal(2).kind());
    assert_ne!(Token::Ident("a".to_string()).kind(), Token::I64Literal(1).kind());
    assert_ne!(Token::Ident("a".to_string()), Token::Ident("b".to_string()));
    assert_ne!(Token::Let.kind(), Token::Exit.kind());
}

#[test]
fn a_clone_is_equal() {
    let tokens = vec![
        Token::Eq,
        Token::Let,
        Token::Exit,
        Token::Semi,
        Token::ParenOpen,
        Token::ParenClose,
        Token::Ident("name".to_string()),
        Token::I64Literal(-3),
    ];
    for token in &tokens {
        assert_eq!(&token.clone(), token);
    }
}
