use hydrogen::compiler::{compile, compile_chars, CompileError};
use hydrogen::grammar::{Expr, Statement};
use hydrogen::parser::{AstParserError, Parser, Program, TokenIterator};
use hydrogen::token::{Token, TokenParseError};
use hydrogen::tokenization::{StreamError, Tokenizer, Tokens};

const PROLOGUE: &str = "  global _start\n\n_start:\n";

fn tokens_of(source: &str) -> Tokens {
    Tokens::new(Tokenizer::new(source.chars().collect()))
}

fn exit_text(operand: &str) -> String {
    format!("{PROLOGUE}{operand}  pop rdi\n  mov rax, 60\n  syscall\n")
}

#[test]
fn exit_of_any_literal_loads_it_and_ends_the_process() {
    for value in [0i64, 1, 5, 255, 256, 257, -1, -256, 1 << 40, i64::MAX, i64::MIN] {
        let text = compile(&format!("exit({value});")).unwrap();
        assert_eq!(text, exit_text(&format!("  mov rax, {value}\n  push rax\n")));
    }
}

#[test]
fn a_bound_value_is_read_from_the_top_of_the_stack() {
    let text = compile("let x = 5; exit(x);").unwrap();
    assert_eq!(
        text,
        exit_text("  mov rax, 5\n  push rax\n  push QWORD [rsp + 0]\n")
    );
}

#[test]
fn a_second_binding_lies_between_the_first_and_the_top() {
    let text = compile("let a = 1; let b = 2; exit(a);").unwrap();
    assert_eq!(
        text,
        exit_text("  mov rax, 1\n  push rax\n  mov rax, 2\n  push rax\n  push QWORD [rsp + 8]\n")
    );
    let text = compile("let a = 1; let b = 2; exit(b);").unwrap();
    assert_eq!(
        text,
        exit_text("  mov rax, 1\n  push rax\n  mov rax, 2\n  push rax\n  push QWORD [rsp + 0]\n")
    );
}

#[test]
fn an_exit_leaves_the_stack_as_deep_as_it_was() {
    let text = compile("let a = 1; exit(a); exit(a); let b = a; exit(a);").unwrap();
    let expected = format!(
        "{PROLOGUE}  mov rax, 1\n  push rax\n\
         \x20 push QWORD [rsp + 0]\n  pop rdi\n  mov rax, 60\n  syscall\n\
         \x20 push QWORD [rsp + 0]\n  pop rdi\n  mov rax, 60\n  syscall\n\
         \x20 push QWORD [rsp + 0]\n\
         \x20 push QWORD [rsp + 8]\n  pop rdi\n  mov rax, 60\n  syscall\n"
    );
    assert_eq!(text, expected);
}

#[test]
fn twenty_bindings_need_a_three_digit_offset() {
    let mut source = String::new();
    for i in 0..20 {
        source.push_str(&format!("let v{i} = {i}; "));
    }
    source.push_str("exit(v0); exit(v7);");
    let text = compile(&source).unwrap();
    assert!(text.contains("  push QWORD [rsp + 152]\n"));
    assert!(text.contains("  push QWORD [rsp + 96]\n"));
}

#[test]
fn compiling_twice_gives_the_same_text() {
    let source = "let a = 1; let b = a; let c = 3; exit(b); exit(c);";
    assert_eq!(compile(source).unwrap(), compile(source).unwrap());
}

#[test]
fn whitespace_does_not_change_the_assembly() {
    let tight = compile("let x=10;exit(x);").unwrap();
    let loose = compile("  let  x  =  10  ;\n\texit ( x ) ;\n").unwrap();
    assert_eq!(tight, loose);
}

#[test]
fn the_empty_text_compiles_to_the_prologue() {
    assert_eq!(compile("").unwrap(), PROLOGUE);
    assert_eq!(compile(" \n ").unwrap(), PROLOGUE);
}

#[test]
fn a_duplicate_declaration_gives_no_assembly() {
    assert_eq!(
        compile("let x = 1; let x = 2; exit(x);"),
        Err(CompileError::Parser(AstParserError::IdentifierAlreadyUsed("x".to_string())))
    );
}

#[test]
fn an_undeclared_reference_gives_no_assembly() {
    assert_eq!(
        compile("exit(y);"),
        Err(CompileError::Parser(AstParserError::IdentifierUndeclared("y".to_string())))
    );
}

#[test]
fn a_word_that_is_no_token_gives_no_assembly() {
    assert_eq!(
        compile("exit(1); 2x"),
        Err(CompileError::Token(TokenParseError::InvalidToken("2x".to_string())))
    );
    assert_eq!(
        compile("let x = 9223372036854775808;"),
        Err(CompileError::Token(TokenParseError::InvalidToken(
            "9223372036854775808".to_string()
        )))
    );
}

#[test]
fn the_error_that_is_met_first_is_the_result() {
    assert_eq!(
        compile("exit(y); 2x"),
        Err(CompileError::Parser(AstParserError::IdentifierUndeclared("y".to_string())))
    );
    assert_eq!(
        compile("exit(y 2x"),
        Err(CompileError::Parser(AstParserError::IdentifierUndeclared("y".to_string())))
    );
    assert_eq!(
        compile("exit(1 2x"),
        Err(CompileError::Token(TokenParseError::InvalidToken("2x".to_string())))
    );
    assert_eq!(
        compile("exit(1) 2x"),
        Err(CompileError::Token(TokenParseError::InvalidToken("2x".to_string())))
    );
    assert_eq!(
        compile("exit(1) x 2x"),
        Err(CompileError::Parser(AstParserError::ExpectedToken(Token::Semi)))
    );
    assert_eq!(
        compile("2x exit(y);"),
        Err(CompileError::Token(TokenParseError::InvalidToken("2x".to_string())))
    );
}

#[test]
fn a_binding_that_reads_itself_gives_no_assembly() {
    assert_eq!(compile("let x = x;"), Err(CompileError::Unresolvable));
    assert_eq!(compile("let a = 1; let x = x; exit(a);"), Err(CompileError::Unresolvable));
}

#[test]
fn code_can_be_generated_for_references_to_earlier_bindings_only() {
    let bound = |name: &str, expr: Expr| Statement::Let { ident: name.to_string(), expr };
    let read = |name: &str| Expr::Ident(name.to_string());
    assert!(Program::new(vec![]).can_be_emitted());
    assert!(Program::new(vec![Statement::Exit(Expr::I64(1))]).can_be_emitted());
    assert!(Program::new(vec![bound("a", Expr::I64(1)), Statement::Exit(read("a"))])
        .can_be_emitted());
    assert!(Program::new(vec![bound("a", Expr::I64(1)), bound("b", read("a"))]).can_be_emitted());
    assert!(!Program::new(vec![Statement::Exit(read("a"))]).can_be_emitted());
    assert!(!Program::new(vec![bound("a", read("a"))]).can_be_emitted());
    assert!(!Program::new(vec![bound("a", Expr::I64(1)), bound("a", read("a"))])
        .can_be_emitted());
    assert!(!Program::new(vec![Statement::Exit(read("a")), bound("a", Expr::I64(1))])
        .can_be_emitted());
    assert!(Program::new(vec![
        bound("a", Expr::I64(1)),
        bound("a", Expr::I64(2)),
        Statement::Exit(read("a")),
    ])
    .can_be_emitted());
}

#[test]
fn a_name_bound_twice_by_hand_stands_for_its_last_slot() {
    let program = Program::new(vec![
        Statement::Let { ident: "a".to_string(), expr: Expr::I64(1) },
        Statement::Let { ident: "b".to_string(), expr: Expr::I64(2) },
        Statement::Let { ident: "a".to_string(), expr: Expr::I64(3) },
        Statement::Exit(Expr::Ident("a".to_string())),
    ]);
    assert!(program.to_asm().contains("  push QWORD [rsp + 0]\n"));
}

#[test]
fn the_stream_lexes_a_token_when_it_is_asked_for() {
    let mut tokens = tokens_of("let x ?? = 1;");
    assert_eq!(tokens.peek_token(), Ok(&Token::Let));
    assert_eq!(tokens.next_token(), Ok(Token::Let));
    assert_eq!(tokens.expect_token(Token::Ident(String::new())), Ok(Token::Ident("x".to_string())));
    assert_eq!(tokens.failure(), None);
}

#[test]
fn the_stream_ends_in_front_of_a_word_that_is_no_token() {
    let mut tokens = tokens_of("let ?? = 1;");
    assert_eq!(tokens.next_token(), Ok(Token::Let));
    assert_eq!(tokens.peek_token(), Err(AstParserError::TokenIsNone));
    assert_eq!(tokens.next_token(), Err(AstParserError::TokenIsNone));
    assert_eq!(tokens.expect_token(Token::Eq), Err(AstParserError::TokenIsNone));
    assert_eq!(
        tokens.failure(),
        Some(StreamError::Token(TokenParseError::InvalidToken("??".to_string())))
    );
}

#[test]
fn the_stream_ends_at_the_end_of_the_text() {
    let mut tokens = tokens_of("exit ");
    assert_eq!(tokens.next_token(), Ok(Token::Exit));
    assert_eq!(tokens.next_token(), Err(AstParserError::TokenIsNone));
    assert_eq!(tokens.failure(), None);
}

#[test]
fn a_mismatch_takes_the_token() {
    let mut tokens = tokens_of("( ) ;");
    assert_eq!(
        tokens.expect_token(Token::Semi),
        Err(AstParserError::ExpectedToken(Token::Semi))
    );
    assert_eq!(tokens.next_token(), Ok(Token::ParenClose));
}

#[test]
fn the_parser_pulls_from_the_lexer() {
    let program = tokens_of("let x = 1; exit(x);").parse().unwrap();
    assert_eq!(program.statements().len(), 2);
    let mut tokens = tokens_of("exit(y); ??");
    assert_eq!(
        Program::try_from_iter(&mut tokens),
        Err(AstParserError::IdentifierUndeclared("y".to_string()))
    );
    assert_eq!(tokens.failure(), None);
}

fn cut_short(text: &str) -> Tokens {
    Tokens::cut_short(Tokenizer::new(text.chars().collect()))
}

fn compile_cut_short(text: &str) -> Result<String, CompileError> {
    compile_chars(text.chars().collect(), true)
}

#[test]
fn an_input_that_fails_ends_the_stream_with_the_failure() {
    let mut tokens = cut_short("exit ( ");
    assert_eq!(tokens.next_token(), Ok(Token::Exit));
    assert_eq!(tokens.next_token(), Ok(Token::ParenOpen));
    assert_eq!(tokens.peek_token(), Err(AstParserError::TokenIsNone));
    assert_eq!(tokens.failure(), Some(StreamError::InputFailed));
    let mut tokens = cut_short("");
    assert_eq!(tokens.next_token(), Err(AstParserError::TokenIsNone));
    assert_eq!(tokens.failure(), Some(StreamError::InputFailed));
}

#[test]
fn a_word_whose_end_was_not_read_is_no_token() {
    let mut tokens = cut_short("exit(x");
    assert_eq!(tokens.next_token(), Ok(Token::Exit));
    assert_eq!(tokens.next_token(), Ok(Token::ParenOpen));
    assert_eq!(tokens.next_token(), Err(AstParserError::TokenIsNone));
    assert_eq!(tokens.failure(), Some(StreamError::InputFailed));
    let mut tokens = cut_short("9x");
    assert_eq!(tokens.next_token(), Err(AstParserError::TokenIsNone));
    assert_eq!(tokens.failure(), Some(StreamError::InputFailed));
}

#[test]
fn a_control_char_needs_no_lookahead() {
    let mut tokens = cut_short("x;");
    assert_eq!(tokens.next_token(), Ok(Token::Ident("x".to_string())));
    assert_eq!(tokens.next_token(), Ok(Token::Semi));
    assert_eq!(tokens.failure(), None);
    let mut tokens = cut_short("x;");
    assert_eq!(tokens.next_token(), Ok(Token::Ident("x".to_string())));
    assert_eq!(tokens.next_token(), Ok(Token::Semi));
    assert_eq!(tokens.next_token(), Err(AstParserError::TokenIsNone));
    assert_eq!(tokens.failure(), Some(StreamError::InputFailed));
}

#[test]
fn a_word_in_front_of_whitespace_is_read_before_the_input_fails() {
    let mut tokens = cut_short("let ");
    assert_eq!(tokens.next_token(), Ok(Token::Let));
    assert_eq!(tokens.failure(), None);
}

#[test]
fn a_whole_input_may_end_with_a_word() {
    let mut tokens = tokens_of("exit(x");
    assert_eq!(tokens.next_token(), Ok(Token::Exit));
    assert_eq!(tokens.next_token(), Ok(Token::ParenOpen));
    assert_eq!(tokens.next_token(), Ok(Token::Ident("x".to_string())));
    assert_eq!(tokens.next_token(), Err(AstParserError::TokenIsNone));
    assert_eq!(tokens.failure(), None);
}

#[test]
fn an_error_in_front_of_the_input_failure_is_the_result() {
    assert_eq!(
        compile_cut_short("exit(y); exit(1"),
        Err(CompileError::Parser(AstParserError::IdentifierUndeclared("y".to_string())))
    );
    assert_eq!(
        compile_cut_short("let 5 "),
        Err(CompileError::Parser(AstParserError::ExpectedToken(Token::Ident(
            "ident".to_string()
        ))))
    );
    assert_eq!(
        compile_cut_short("9x exit(1);"),
        Err(CompileError::Token(TokenParseError::InvalidToken("9x".to_string())))
    );
}

#[test]
fn an_input_failure_that_the_parser_reaches_is_the_result() {
    assert_eq!(compile_cut_short(""), Err(CompileError::InputFailed));
    assert_eq!(compile_cut_short("exit(1);"), Err(CompileError::InputFailed));
    assert_eq!(compile_cut_short("exit(1)"), Err(CompileError::InputFailed));
    assert_eq!(compile_cut_short("exit(y"), Err(CompileError::InputFailed));
    assert_eq!(compile_cut_short("exit(1); 9x"), Err(CompileError::InputFailed));
    assert_eq!(compile_cut_short("let x = 1; exit"), Err(CompileError::InputFailed));
}

#[test]
fn a_whole_input_never_fails_to_be_read() {
    for source in ["", "exit(1);", "exit(1)", "exit(y", "let x = 1; exit"] {
        assert_ne!(compile(source), Err(CompileError::InputFailed));
        assert_eq!(compile(source), compile_chars(source.chars().collect(), false));
    }
}

#[test]
fn a_missing_last_semicolon_ends_the_stream() {
    assert_eq!(compile("exit(0)"), Err(CompileError::Parser(AstParserError::TokenIsNone)));
    assert_eq!(compile("let x = 1"), Err(CompileError::Parser(AstParserError::TokenIsNone)));
}
