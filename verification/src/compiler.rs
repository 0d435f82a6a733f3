//! The whole pipeline: from source text to assembly text.

use vstd::prelude::*;
use vstd::std_specs::cmp::PartialEqSpecImpl;
use crate::chars::{is_ascii_digit, str_chars};
use crate::decimal::{int_decimal, lemma_decimal_reads_back, lemma_nat_decimal, nat_decimal};
use crate::grammar::{
    parse_exit,
    parse_expr,
    parse_statement,
    statement_asm,
    ExprView,
    StatementView,
};
use crate::parser::{
    asm_line,
    parse_program,
    parse_runs_out,
    program_asm,
    program_can_emit,
    prologue,
    AstParserError,
    AstParserErrorView,
    Program,
    StackView,
};
use crate::scope::{
    fits,
    lemma_accepted_is_in_scope,
    lemma_parsed_program_is_accepted,
    lemma_program_can_emit,
    no_self_reference,
    tracks,
};
use crate::token::{result_view, word_token, TokenParseError, TokenParseErrorView, TokenView};
use crate::tokenization::{
    is_delimiter,
    lemma_lex_control_char,
    lemma_lex_split,
    lemma_lex_word,
    lemma_stream_of_whole_input,
    lex,
    stream_ending,
    stream_tokens,
    StreamError,
    StreamErrorView,
    Tokenizer,
    Tokens,
};

verus! {

/// Why a source text has no assembly.
#[derive(Debug)]
pub enum CompileError {
    /// The input could not be read as far as the parser asked for it.
    InputFailed,
    /// The text holds a word that is no token.
    Token(TokenParseError),
    /// The tokens are no program.
    Parser(AstParserError),
    /// A `let` reads the name that it declares, whose slot is not on the
    /// stack yet; or the program declares more names than the stack can
    /// be tracked for.
    Unresolvable,
}

/// What a [`CompileError`] stands for.
pub enum CompileErrorView {
    InputFailed,
    Token(TokenParseErrorView),
    Parser(AstParserErrorView),
    Unresolvable,
}

impl View for CompileError {
    type V = CompileErrorView;

    open spec fn view(&self) -> CompileErrorView {
        match self {
            CompileError::InputFailed => CompileErrorView::InputFailed,
            CompileError::Token(error) => CompileErrorView::Token(error@),
            CompileError::Parser(error) => CompileErrorView::Parser(error@),
            CompileError::Unresolvable => CompileErrorView::Unresolvable,
        }
    }
}

impl PartialEq for CompileError {
    fn eq(&self, other: &Self) -> (r: bool) {
        match self {
            CompileError::InputFailed => match other {
                CompileError::InputFailed => true,
                _ => false,
            },
            CompileError::Token(a) => match other {
                CompileError::Token(b) => *a == *b,
                _ => false,
            },
            CompileError::Parser(a) => match other {
                CompileError::Parser(b) => *a == *b,
                _ => false,
            },
            CompileError::Unresolvable => match other {
                CompileError::Unresolvable => true,
                _ => false,
            },
        }
    }
}

impl PartialEqSpecImpl for CompileError {
    open spec fn obeys_eq_spec() -> bool {
        true
    }

    open spec fn eq_spec(&self, other: &Self) -> bool {
        self@ == other@
    }
}

/// The assembly of the text `text`, which is the whole input, or, where
/// `cut_short` holds, what could be read of an input whose reading then
/// failed. The parser takes the tokens one at a time, with no name
/// declared at the start, and the first error halts the pipeline: the
/// error of the parser where it fails on a token in front of the end of
/// the token stream; the error that ends the stream, a word that is no
/// token or the failure of the input, where the parser comes to ask for
/// a token behind that end. A program that parses has its code generated
/// on the empty stack.
pub open spec fn compiled_from(text: Seq<char>, cut_short: bool) -> Result<
    Seq<char>,
    CompileErrorView,
> {
    let tokens = stream_tokens(text, cut_short);
    let ending = stream_ending(text, cut_short);
    if ending is Some && parse_runs_out(tokens, Set::empty()) {
        match ending->0 {
            StreamErrorView::InputFailed => Err(CompileErrorView::InputFailed),
            StreamErrorView::Token(error) => Err(CompileErrorView::Token(error)),
        }
    } else {
        match parse_program(tokens, Set::empty()) {
            Err(error) => Err(CompileErrorView::Parser(error)),
            Ok(program) => if program_can_emit(program, StackView::empty()) {
                Ok(prologue() + program_asm(program, StackView::empty()))
            } else {
                Err(CompileErrorView::Unresolvable)
            },
        }
    }
}

/// The assembly of the source text `source`, read to its end: see
/// [`compiled_from`].
pub open spec fn compiled(source: Seq<char>) -> Result<Seq<char>, CompileErrorView> {
    compiled_from(source, false)
}

/// Compiles the characters that were read of an input to assembly: see
/// [`compiled_from`]. `cut_short` says that reading the input failed
/// behind `chars`.
pub fn compile_chars(chars: Vec<char>, cut_short: bool) -> (r: Result<String, CompileError>)
    ensures
        result_view(r) == compiled_from(chars@, cut_short),
{
    let lexer = Tokenizer::new(chars);
    let mut tokens = if cut_short {
        Tokens::cut_short(lexer)
    } else {
        Tokens::new(lexer)
    };
    let parsed = Program::try_from_iter(&mut tokens);
    match tokens.failure() {
        Some(StreamError::InputFailed) => return Err(CompileError::InputFailed),
        Some(StreamError::Token(error)) => return Err(CompileError::Token(error)),
        None => {},
    }
    let program = match parsed {
        Ok(program) => program,
        Err(error) => return Err(CompileError::Parser(error)),
    };
    if program.can_be_emitted() {
        Ok(program.to_asm())
    } else {
        Err(CompileError::Unresolvable)
    }
}

/// Compiles `source` to assembly: see [`compiled`].
pub fn compile(source: &str) -> (r: Result<String, CompileError>)
    ensures
        result_view(r) == compiled(source@),
{
    compile_chars(str_chars(source), false)
}

/// A source text that is read to its end never fails for want of input.
pub proof fn lemma_whole_input_is_read(source: Seq<char>)
    ensures
        compiled(source) != Err::<Seq<char>, CompileErrorView>(CompileErrorView::InputFailed),
{
    lemma_stream_of_whole_input(source);
}

/// A text that lexes and parses has its assembly, unless a `let` reads the
/// name that it declares or the stack outgrows its bound.
pub proof fn lemma_parsed_text_compiles(source: Seq<char>)
    requires
        lex(source) is Ok,
        parse_program(lex(source)->Ok_0, Set::empty()) is Ok,
        no_self_reference(parse_program(lex(source)->Ok_0, Set::empty())->Ok_0),
        fits(parse_program(lex(source)->Ok_0, Set::empty())->Ok_0, 0),
    ensures
        compiled(source) == Ok::<Seq<char>, CompileErrorView>(
            prologue() + program_asm(
                parse_program(lex(source)->Ok_0, Set::empty())->Ok_0,
                StackView::empty(),
            ),
        ),
{
    let tokens = lex(source)->Ok_0;
    let program = parse_program(tokens, Set::empty())->Ok_0;
    lemma_stream_of_whole_input(source);
    lemma_parsed_program_is_accepted(tokens, Set::empty());
    lemma_accepted_is_in_scope(program, Set::empty());
    assert(tracks(StackView::empty(), Set::empty())) by {
        assert(StackView::empty().slots.dom() =~= Set::<Seq<char>>::empty());
    }
    lemma_program_can_emit(program, StackView::empty(), Set::empty());
}

/// Compiling is a function of the source text: whatever two runs of
/// [`compile`] on the same text return, it is the same assembly, character
/// for character, or the same error.
pub proof fn lemma_compile_is_deterministic(
    source: &str,
    first: Result<String, CompileError>,
    second: Result<String, CompileError>,
)
    requires
        call_ensures(compile, (source,), first),
        call_ensures(compile, (source,), second),
    ensures
        result_view(first) == result_view(second),
{
}

/// The source text `exit(` *n* `);` with *n* in decimal notation.
pub open spec fn exit_source(value: i64) -> Seq<char> {
    seq!['e', 'x', 'i', 't', '('] + int_decimal(value as int) + seq![')', ';']
}

/// The decimal notation of an integer is one word.
proof fn lemma_decimal_is_a_word(value: i64)
    ensures
        int_decimal(value as int).len() > 0,
        forall|i: int|
            0 <= i < int_decimal(value as int).len() ==> !is_delimiter(
                #[trigger] int_decimal(value as int)[i],
            ),
        word_token(int_decimal(value as int)) == Ok::<TokenView, TokenParseErrorView>(
            TokenView::I64Literal(value),
        ),
{
    let text = int_decimal(value as int);
    let digits = if value < 0 {
        nat_decimal((-value) as nat)
    } else {
        nat_decimal(value as nat)
    };
    if value < 0 {
        lemma_nat_decimal((-value) as nat);
    } else {
        lemma_nat_decimal(value as nat);
    }
    assert forall|i: int| 0 <= i < text.len() implies !is_delimiter(#[trigger] text[i]) by {
        if value < 0 && i > 0 {
            assert(text[i] == digits[i - 1]);
            assert(is_ascii_digit(digits[i - 1]));
        } else if value >= 0 {
            assert(is_ascii_digit(digits[i]));
        }
    }
    assert(text[0] == '-' || is_ascii_digit(text[0])) by {
        if value >= 0 {
            assert(is_ascii_digit(digits[0]));
        }
    }
    lemma_decimal_reads_back(value);
}

/// Every 64-bit integer can be written as the operand of `exit`: the
/// program `exit(` *n* `);` compiles, and its assembly is the prologue and
/// five lines, which load *n* into `rax` and push it, pop it into `rdi`,
/// put 60 into `rax`, and make the system call.
pub proof fn lemma_exit_of_a_literal(value: i64)
    ensures
        compiled(exit_source(value)) == Ok::<Seq<char>, CompileErrorView>(
            prologue() + asm_line("mov rax, "@ + int_decimal(value as int)) + asm_line(
                "push "@ + "rax"@,
            ) + asm_line("pop "@ + "rdi"@) + asm_line("mov rax, 60"@) + asm_line("syscall"@),
        ),
{
    let keyword = seq!['e', 'x', 'i', 't'];
    let number = int_decimal(value as int);
    let close = seq![')', ';'];
    let tokens = seq![
        TokenView::Exit,
        TokenView::ParenOpen,
        TokenView::I64Literal(value),
        TokenView::ParenClose,
        TokenView::Semi,
    ];
    assert(lex(exit_source(value)) == Ok::<Seq<TokenView>, TokenParseErrorView>(tokens)) by {
        let operand = seq!['('] + (number + close);
        assert(exit_source(value) == keyword + operand);
        assert(operand[0] == '(');
        lemma_lex_split(keyword, operand);
        lemma_lex_word(keyword);
        lemma_lex_control_char('(', number + close);
        assert(close[0] == ')');
        lemma_lex_split(number, close);
        lemma_decimal_is_a_word(value);
        lemma_lex_word(number);
        assert(close == seq![')'] + seq![';']);
        lemma_lex_control_char(')', seq![';']);
        assert(seq![';'] == seq![';'] + Seq::<char>::empty());
        lemma_lex_control_char(';', Seq::<char>::empty());
        assert(lex(Seq::<char>::empty()) == Ok::<Seq<TokenView>, TokenParseErrorView>(
            Seq::empty(),
        ));
        assert(lex(seq![';']) == Ok::<Seq<TokenView>, TokenParseErrorView>(
            seq![TokenView::Semi],
        )) by {
            assert(seq![TokenView::Semi] + Seq::<TokenView>::empty() == seq![TokenView::Semi]);
        }
        assert(lex(close) == Ok::<Seq<TokenView>, TokenParseErrorView>(
            seq![TokenView::ParenClose, TokenView::Semi],
        )) by {
            assert(seq![TokenView::ParenClose] + seq![TokenView::Semi] == seq![
                TokenView::ParenClose,
                TokenView::Semi,
            ]);
        }
        assert(seq![TokenView::I64Literal(value)] + seq![TokenView::ParenClose, TokenView::Semi]
            == tokens.skip(2));
        assert(seq![TokenView::ParenOpen] + tokens.skip(2) == tokens.skip(1));
        assert(seq![TokenView::Exit] + tokens.skip(1) == tokens);
    }
    lemma_stream_of_whole_input(exit_source(value));
    let statement = StatementView::Exit(ExprView::I64(value));
    let program = seq![statement];
    assert(parse_program(tokens, Set::empty()) == Ok::<Seq<StatementView>, AstParserErrorView>(
        program,
    )) by {
        assert(tokens.skip(2)[0] == TokenView::I64Literal(value));
        assert(parse_expr(tokens.skip(2), Set::empty()).result == Ok::<
            ExprView,
            AstParserErrorView,
        >(ExprView::I64(value)));
        assert(parse_exit(tokens, Set::empty()).result == Ok::<StatementView, AstParserErrorView>(
            statement,
        ));
        assert(parse_statement(tokens, Set::empty()).read == 5);
        assert(tokens.skip(5) == Seq::<TokenView>::empty());
        assert(parse_program(Seq::<TokenView>::empty(), Set::empty()) == Ok::<
            Seq<StatementView>,
            AstParserErrorView,
        >(Seq::empty()));
        assert(seq![statement] + Seq::<StatementView>::empty() == program);
    }
    assert(program.drop_first() == Seq::<StatementView>::empty());
    assert(program_can_emit(program.drop_first(), StackView::empty()));
    assert(program_asm(program.drop_first(), StackView::empty()) == Seq::<char>::empty());
    assert(program_asm(program, StackView::empty()) == statement_asm(
        statement,
        StackView::empty(),
    )) by {
        assert(statement_asm(statement, StackView::empty()) + Seq::<char>::empty()
            == statement_asm(statement, StackView::empty()));
    }
    let first = asm_line("mov rax, "@ + int_decimal(value as int));
    let second = asm_line("push "@ + "rax"@);
    let third = asm_line("pop "@ + "rdi"@);
    let fourth = asm_line("mov rax, 60"@);
    let fifth = asm_line("syscall"@);
    assert(prologue() + (first + second + third + fourth + fifth) == prologue() + first + second
        + third + fourth + fifth);
}

} // verus!
