//! The grammar: expressions and statements, how they are parsed, and the
//! assembly that each one emits.

use vstd::hash_set::StringHashSet;
use vstd::prelude::*;
use vstd::std_specs::cmp::PartialEqSpecImpl;
use crate::decimal::{int_decimal, nat_decimal, push_i64_decimal, push_nat_decimal};
use crate::parser::{
    asm_line,
    AsmStream,
    AstParserError,
    AstParserErrorView,
    ParseStep,
    StackVarIdxMap,
    StackView,
    TokenIterator,
    TreeParser,
};
use crate::token::{Token, TokenView};

verus! {

/// A computation that yields one 64-bit integer.
#[derive(Debug)]
pub enum Expr {
    /// An integer literal.
    I64(i64),
    /// A reference to a declared name.
    Ident(String),
}

/// What an [`Expr`] stands for, with a name as a sequence of characters.
pub enum ExprView {
    I64(i64),
    Ident(Seq<char>),
}

impl View for Expr {
    type V = ExprView;

    open spec fn view(&self) -> ExprView {
        match self {
            Expr::I64(value) => ExprView::I64(*value),
            Expr::Ident(name) => ExprView::Ident(name@),
        }
    }
}

impl PartialEq for Expr {
    fn eq(&self, other: &Self) -> (r: bool) {
        match self {
            Expr::I64(a) => match other {
                Expr::I64(b) => *a == *b,
                _ => false,
            },
            Expr::Ident(a) => match other {
                Expr::Ident(b) => *a == *b,
                _ => false,
            },
        }
    }
}

impl PartialEqSpecImpl for Expr {
    open spec fn obeys_eq_spec() -> bool {
        true
    }

    open spec fn eq_spec(&self, other: &Self) -> bool {
        self@ == other@
    }
}

/// One statement of a program.
#[derive(Debug)]
pub enum Statement {
    /// Ends the process with the value of the expression as its status.
    Exit(Expr),
    /// Binds a new name to the value of the expression.
    Let { ident: String, expr: Expr },
}

/// What a [`Statement`] stands for, with names as sequences of characters.
pub enum StatementView {
    Exit(ExprView),
    Let { ident: Seq<char>, expr: ExprView },
}

impl View for Statement {
    type V = StatementView;

    open spec fn view(&self) -> StatementView {
        match self {
            Statement::Exit(expr) => StatementView::Exit(expr@),
            Statement::Let { ident, expr } => StatementView::Let { ident: ident@, expr: expr@ },
        }
    }
}

impl PartialEq for Statement {
    fn eq(&self, other: &Self) -> (r: bool) {
        match self {
            Statement::Exit(a) => match other {
                Statement::Exit(b) => *a == *b,
                _ => false,
            },
            Statement::Let { ident, expr } => match other {
                Statement::Let { ident: other_ident, expr: other_expr } => *ident == *other_ident
                    && *expr == *other_expr,
                _ => false,
            },
        }
    }
}

impl PartialEqSpecImpl for Statement {
    open spec fn obeys_eq_spec() -> bool {
        true
    }

    open spec fn eq_spec(&self, other: &Self) -> bool {
        self@ == other@
    }
}

/// A step that fails with `error` on a token that it has read, after
/// `read` tokens.
pub open spec fn failed<T>(error: AstParserErrorView, read: nat, declared: Set<Seq<char>>)
    -> ParseStep<T> {
    ParseStep { result: Err(error), read, declared, ran_out: false }
}

/// A step that fails for want of a token, after all the `read` tokens
/// that there are.
pub open spec fn starved<T>(read: nat, declared: Set<Seq<char>>) -> ParseStep<T> {
    ParseStep { result: Err(AstParserErrorView::TokenIsNone), read, declared, ran_out: true }
}

/// Parsing an expression: one token, which is an integer literal or the
/// name of a declared variable.
pub open spec fn parse_expr(tokens: Seq<TokenView>, declared: Set<Seq<char>>) -> ParseStep<
    ExprView,
> {
    if tokens.len() == 0 {
        starved(0, declared)
    } else {
        match tokens[0] {
            TokenView::I64Literal(value) => ParseStep {
                result: Ok(ExprView::I64(value)),
                read: 1,
                declared,
                ran_out: false,
            },
            TokenView::Ident(name) => if declared.contains(name) {
                ParseStep { result: Ok(ExprView::Ident(name)), read: 1, declared, ran_out: false }
            } else {
                failed(AstParserErrorView::IdentifierUndeclared(name), 1, declared)
            },
            other => failed(AstParserErrorView::UnexpectedToken(other), 1, declared),
        }
    }
}

/// The end of a statement whose first `before` tokens, all present, gave
/// `statement`: a semicolon has to follow. Where the stream ends in its
/// place, the stream has ended; where another token stands there, a
/// semicolon was expected.
pub open spec fn parse_semi(
    tokens: Seq<TokenView>,
    before: nat,
    statement: StatementView,
    declared: Set<Seq<char>>,
) -> ParseStep<StatementView> {
    if tokens.len() <= before {
        starved(before, declared)
    } else if tokens[before as int] is Semi {
        ParseStep { result: Ok(statement), read: before + 1, declared, ran_out: false }
    } else {
        failed(AstParserErrorView::ExpectedToken(TokenView::Semi), before + 1, declared)
    }
}

/// Parsing `let` *name* `=` *expression* `;` where `tokens[0]` is the
/// `let`. The name must be new; it is declared as soon as it is accepted,
/// before the expression is read.
pub open spec fn parse_let(tokens: Seq<TokenView>, declared: Set<Seq<char>>) -> ParseStep<
    StatementView,
> {
    if tokens.len() < 2 {
        starved(1, declared)
    } else if !(tokens[1] is Ident) {
        failed(
            AstParserErrorView::ExpectedToken(TokenView::Ident(seq!['i', 'd', 'e', 'n', 't'])),
            2,
            declared,
        )
    } else {
        let name = tokens[1]->Ident_0;
        let scope = declared.insert(name);
        if declared.contains(name) {
            failed(AstParserErrorView::IdentifierAlreadyUsed(name), 2, declared)
        } else if tokens.len() < 3 {
            starved(2, scope)
        } else if !(tokens[2] is Eq) {
            failed(AstParserErrorView::ExpectedToken(TokenView::Eq), 3, scope)
        } else {
            let expr = parse_expr(tokens.skip(3), scope);
            match expr.result {
                Err(error) => ParseStep {
                    result: Err(error),
                    read: 3 + expr.read,
                    declared: scope,
                    ran_out: expr.ran_out,
                },
                Ok(value) => parse_semi(
                    tokens,
                    4,
                    StatementView::Let { ident: name, expr: value },
                    scope,
                ),
            }
        }
    }
}

/// Parsing `exit` `(` *expression* `)` `;` where `tokens[0]` is the `exit`.
pub open spec fn parse_exit(tokens: Seq<TokenView>, declared: Set<Seq<char>>) -> ParseStep<
    StatementView,
> {
    if tokens.len() < 2 {
        starved(1, declared)
    } else if !(tokens[1] is ParenOpen) {
        failed(AstParserErrorView::ExpectedToken(TokenView::ParenOpen), 2, declared)
    } else {
        let expr = parse_expr(tokens.skip(2), declared);
        match expr.result {
            Err(error) => ParseStep {
                result: Err(error),
                read: 2 + expr.read,
                declared,
                ran_out: expr.ran_out,
            },
            Ok(value) => if tokens.len() < 4 {
                starved(3, declared)
            } else if !(tokens[3] is ParenClose) {
                failed(AstParserErrorView::ExpectedToken(TokenView::ParenClose), 4, declared)
            } else {
                parse_semi(tokens, 4, StatementView::Exit(value), declared)
            },
        }
    }
}

/// Parsing one statement from the front of `tokens`.
pub open spec fn parse_statement(tokens: Seq<TokenView>, declared: Set<Seq<char>>) -> ParseStep<
    StatementView,
> {
    if tokens.len() == 0 {
        starved(0, declared)
    } else {
        match tokens[0] {
            TokenView::Let => parse_let(tokens, declared),
            TokenView::Exit => parse_exit(tokens, declared),
            other => failed(AstParserErrorView::UnexpectedToken(other), 1, declared),
        }
    }
}

/// Whether code can be generated for `expr` on the stack `stack`: there is
/// room for one more slot, and a name that `expr` refers to has its slot
/// on the stack.
pub open spec fn expr_can_emit(expr: ExprView, stack: StackView) -> bool {
    &&& stack.depth < StackView::max_depth()
    &&& (expr is Ident ==> stack.resolves(expr->Ident_0))
}

/// The assembly of `expr` on the stack `stack`; it pushes one slot that
/// holds the value. A literal goes through `rax`. A variable is copied
/// from its slot, which lies `stack.offset(name)` bytes below the top.
pub open spec fn expr_asm(expr: ExprView, stack: StackView) -> Seq<char> {
    match expr {
        ExprView::I64(value) => asm_line("mov rax, "@ + int_decimal(value as int)) + asm_line(
            "push "@ + "rax"@,
        ),
        ExprView::Ident(name) => asm_line(
            "push "@ + ("QWORD [rsp + "@ + nat_decimal(stack.offset(name) as nat) + "]"@),
        ),
    }
}

/// The stack on which the expression of `statement` is evaluated: a `let`
/// declares its name at the current depth first, so that the name stands
/// for the slot that its value is about to take.
pub open spec fn statement_scope(statement: StatementView, stack: StackView) -> StackView {
    match statement {
        StatementView::Exit(_) => stack,
        StatementView::Let { ident, .. } => stack.declare(ident),
    }
}

/// The expression of `statement`.
pub open spec fn statement_expr(statement: StatementView) -> ExprView {
    match statement {
        StatementView::Exit(expr) => expr,
        StatementView::Let { expr, .. } => expr,
    }
}

/// Whether code can be generated for `statement` on the stack `stack`.
pub open spec fn statement_can_emit(statement: StatementView, stack: StackView) -> bool {
    expr_can_emit(statement_expr(statement), statement_scope(statement, stack))
}

/// The assembly of `statement` on the stack `stack`. An `exit` evaluates
/// its expression, pops the value into `rdi`, selects the system call 60
/// and makes the call. A `let` evaluates its expression and leaves the
/// value on the stack as the slot of its name.
pub open spec fn statement_asm(statement: StatementView, stack: StackView) -> Seq<char> {
    match statement {
        StatementView::Exit(expr) => expr_asm(expr, stack) + asm_line("pop "@ + "rdi"@) + asm_line(
            "mov rax, 60"@,
        ) + asm_line("syscall"@),
        StatementView::Let { ident, expr } => expr_asm(expr, stack.declare(ident)),
    }
}

/// The stack that the assembly of `statement` leaves behind: as deep as
/// before after an `exit`, one slot deeper after a `let`.
pub open spec fn statement_stack(statement: StatementView, stack: StackView) -> StackView {
    match statement {
        StatementView::Exit(_) => stack,
        StatementView::Let { ident, .. } => stack.declare(ident).push(),
    }
}

impl TreeParser for Expr {
    open spec fn parse_step(tokens: Seq<TokenView>, declared: Set<Seq<char>>) -> ParseStep<
        ExprView,
    > {
        parse_expr(tokens, declared)
    }

    open spec fn can_emit(&self, stack: StackView) -> bool {
        expr_can_emit(self@, stack)
    }

    open spec fn emitted(&self, stack: StackView) -> Seq<char> {
        expr_asm(self@, stack)
    }

    open spec fn stack_after(&self, stack: StackView) -> StackView {
        stack.push()
    }

    fn try_from_iter<I: TokenIterator>(iter: &mut I, declared: &mut StringHashSet) -> (r: Result<
        Self,
        AstParserError,
    >) {
        let token = iter.next_token()?;
        let expr = match token {
            Token::I64Literal(value) => Expr::I64(value),
            Token::Ident(ident) => {
                if !declared.contains(ident.as_str()) {
                    return Err(AstParserError::IdentifierUndeclared(ident));
                }
                Expr::Ident(ident)
            },
            _ => return Err(AstParserError::UnexpectedToken(token)),
        };
        Ok(expr)
    }

    fn to_asm(&self, asm_stream: &mut AsmStream, tracker: &mut StackVarIdxMap) {
        match self {
            Expr::I64(value) => {
                let mut line = "mov rax, ".to_owned();
                push_i64_decimal(&mut line, *value);
                asm_stream.write_line_string(line);
                tracker.write_push(asm_stream, "rax");
            },
            Expr::Ident(ident) => {
                let stack_offset = tracker.get_stack_offeset(ident.as_str()).unwrap();
                let mut operand = "QWORD [rsp + ".to_owned();
                push_nat_decimal(&mut operand, stack_offset as u64);
                operand.append("]");
                tracker.write_push(asm_stream, operand.as_str());
            },
        }
    }
}

impl TreeParser for Statement {
    open spec fn parse_step(tokens: Seq<TokenView>, declared: Set<Seq<char>>) -> ParseStep<
        StatementView,
    > {
        parse_statement(tokens, declared)
    }

    open spec fn can_emit(&self, stack: StackView) -> bool {
        statement_can_emit(self@, stack)
    }

    open spec fn emitted(&self, stack: StackView) -> Seq<char> {
        statement_asm(self@, stack)
    }

    open spec fn stack_after(&self, stack: StackView) -> StackView {
        statement_stack(self@, stack)
    }

    fn try_from_iter<I: TokenIterator>(iter: &mut I, declared: &mut StringHashSet) -> (r: Result<
        Self,
        AstParserError,
    >) {
        let ghost tokens = iter.remaining();
        let token = iter.next_token()?;
        let statement = match token {
            Token::Let => {
                let ident = match iter.next_token()? {
                    Token::Ident(ident) => ident,
                    _ => {
                        proof {
                            reveal_strlit("ident");
                            assert("ident"@ == seq!['i', 'd', 'e', 'n', 't']);
                        }
                        return Err(AstParserError::ExpectedToken(Token::Ident("ident".to_owned())));
                    },
                };
                if declared.contains(ident.as_str()) {
                    return Err(AstParserError::IdentifierAlreadyUsed(ident));
                }
                declared.insert(ident.clone());
                iter.expect_token(Token::Eq)?;
                proof {
                    assert(iter.remaining() == tokens.skip(3));
                }
                let expr = Expr::try_from_iter(iter, declared)?;
                proof {
                    assert(tokens.skip(3).skip(1) == tokens.skip(4));
                }
                Statement::Let { ident, expr }
            },
            Token::Exit => {
                iter.expect_token(Token::ParenOpen)?;
                proof {
                    assert(iter.remaining() == tokens.skip(2));
                }
                let exit = Statement::Exit(Expr::try_from_iter(iter, declared)?);
                proof {
                    assert(tokens.skip(2).skip(1) == tokens.skip(3));
                }
                iter.expect_token(Token::ParenClose)?;
                exit
            },
            _ => return Err(AstParserError::UnexpectedToken(token)),
        };
        proof {
            assert(iter.remaining() == tokens.skip(4));
        }
        iter.expect_token(Token::Semi)?;
        Ok(statement)
    }

    fn to_asm(&self, asm_stream: &mut AsmStream, tracker: &mut StackVarIdxMap) {
        match self {
            Statement::Exit(expr) => {
                expr.to_asm(asm_stream, tracker);
                tracker.write_pop(asm_stream, "rdi");
                asm_stream.write_line("mov rax, 60");
                asm_stream.write_line("syscall");
            },
            Statement::Let { ident, expr } => {
                tracker.insert_ident(ident.as_str());
                expr.to_asm(asm_stream, tracker);
            },
        }
    }
}

} // verus!
