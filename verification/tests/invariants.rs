use hydrogen::chars::{char_is_ascii_alphabetic, char_is_whitespace, chars_to_string, str_chars};
use hydrogen::decimal::{push_i64_decimal, push_nat_decimal, read_i64};
use hydrogen::grammar::Statement;
use hydrogen::parser::{Parser, Program, StackVarIdxMap, AsmStream, TreeParser};
use hydrogen::token::{char_is_control, Token, TokenParseError};
use hydrogen::tokenization::{tokenize, Tokenizer, Tokens};
use std::str::FromStr;

fn lex(source: &str) -> Result<Vec<Token>, TokenParseError> {
    tokenize(source.chars().collect())
}

fn parse(source: &str) -> Program {
    Tokens::new(Tokenizer::new(source.chars().collect())).parse().expect("the text parses")
}

#[test]
fn whitespace_is_what_the_standard_library_says() {
    for c in '\0'..=char::MAX {
        assert_eq!(char_is_whitespace(c), c.is_whitespace(), "{c:?}");
    }
}

#[test]
fn ascii_letters_are_what_the_standard_library_says() {
    for c in '\0'..=char::MAX {
        assert_eq!(char_is_ascii_alphabetic(c), c.is_ascii_alphabetic(), "{c:?}");
    }
}

#[test]
fn the_control_chars_are_the_four_single_char_tokens() {
    for c in '\0'..=char::MAX {
        assert_eq!(char_is_control(c), Token::try_from(c).is_ok(), "{c:?}");
        assert_eq!(char_is_control(c), "=;()".contains(c), "{c:?}");
    }
}

#[test]
fn strings_and_chars_convert_both_ways() {
    for text in ["", "a", "let x = 1;", "né\u{3000}√\u{10ffff}"] {
        let chars: Vec<char> = text.chars().collect();
        assert_eq!(str_chars(text), chars);
        assert_eq!(chars_to_string(&chars), text);
    }
}

#[test]
fn decimal_notation_is_that_of_the_standard_library() {
    for value in [0i64, 1, 9, 10, 11, 99, 100, 101, -1, -9, -10, 1 << 32, i64::MAX, i64::MIN] {
        let mut text = String::from("n=");
        push_i64_decimal(&mut text, value);
        assert_eq!(text, format!("n={value}"));
    }
    for value in [0u64, 7, 10, 18446744073709551615] {
        let mut text = String::new();
        push_nat_decimal(&mut text, value);
        assert_eq!(text, value.to_string());
    }
}

#[test]
fn decimal_notation_reads_back() {
    for value in [0i64, 5, -5, 1234567890123, i64::MAX, i64::MIN, i64::MIN + 1] {
        let mut text = String::new();
        push_i64_decimal(&mut text, value);
        let chars: Vec<char> = text.chars().collect();
        assert_eq!(read_i64(&chars), Some(value));
        assert_eq!(Token::from_str(&text), Ok(Token::I64Literal(value)));
    }
}

#[test]
fn a_text_cut_in_front_of_a_delimiter_lexes_in_two_parts() {
    let cases = [("ab", "(cd)"), ("let x", " = 1;"), ("exit(1)", ";"), ("", "x"), ("x", "")];
    for (first, second) in cases {
        let mut both = lex(first).unwrap();
        both.extend(lex(second).unwrap());
        assert_eq!(lex(&format!("{first}{second}")).unwrap(), both);
    }
    assert_ne!(lex("letx").unwrap(), [lex("let").unwrap(), lex("x").unwrap()].concat());
}

#[test]
fn whitespace_next_to_a_control_char_changes_no_token() {
    for c in ['=', ';', '(', ')'] {
        for (before, after) in [("let x", "1;"), ("", ""), ("9x", "y"), ("a ", " b")] {
            let tight = lex(&format!("{before}{c}{after}"));
            let loose = lex(&format!("{before} \t{c}\n\u{2003}{after}"));
            assert_eq!(tight, loose);
        }
    }
}

#[test]
fn a_parsed_program_declares_each_name_once_and_before_its_use() {
    let program = parse("let a = 1; let b = a; exit(b); let c = c; exit(a);");
    let mut declared: Vec<&str> = vec![];
    for statement in program.statements() {
        match statement {
            Statement::Let { ident, expr } => {
                assert!(!declared.contains(&ident.as_str()));
                declared.push(ident);
                if let hydrogen::grammar::Expr::Ident(name) = expr {
                    assert!(declared.contains(&name.as_str()));
                }
            }
            Statement::Exit(hydrogen::grammar::Expr::Ident(name)) => {
                assert!(declared.contains(&name.as_str()));
            }
            Statement::Exit(_) => {}
        }
    }
}

#[test]
fn the_offset_of_a_name_is_eight_bytes_for_each_later_binding() {
    let program = parse("let a = 1; let b = 2; exit(a); let c = 3; let d = 4; exit(a); exit(c);");
    let mut stream = AsmStream::new();
    let mut tracker = StackVarIdxMap::new();
    let expected_a = [None, Some(0), Some(8), Some(8), Some(16), Some(24), Some(24), Some(24)];
    let expected_c = [None, None, None, None, Some(0), Some(8), Some(8), Some(8)];
    assert_eq!(tracker.get_stack_offeset("a"), expected_a[0]);
    for (i, statement) in program.statements().iter().enumerate() {
        statement.to_asm(&mut stream, &mut tracker);
        assert_eq!(tracker.get_stack_offeset("a"), expected_a[i + 1]);
        assert_eq!(tracker.get_stack_offeset("c"), expected_c[i + 1]);
    }
}

#[test]
fn pushes_less_pops_is_the_number_of_bindings() {
    let text = parse("let a = 1; exit(a); let b = a; exit(2); exit(b); let c = 3;").to_asm();
    let pushes = text.lines().filter(|line| line.starts_with("  push ")).count();
    let pops = text.lines().filter(|line| line.starts_with("  pop ")).count();
    assert_eq!(pushes - pops, 3);
}
