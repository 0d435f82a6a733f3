//! The parser's side of the pipeline: the token stream that it reads and
//! the errors that it reports; the parsed program; and what code
//! generation works with, the output sink and the tracker of the runtime
//! stack.

use vstd::hash_map::StringHashMap;
use vstd::hash_set::StringHashSet;
use vstd::prelude::*;
use vstd::std_specs::cmp::PartialEqSpecImpl;
use crate::grammar::{
    parse_statement,
    statement_asm,
    statement_can_emit,
    statement_stack,
    Statement,
    StatementView,
};
use crate::token::{result_view, token_views, Token, TokenView};
use crate::tokenization::StreamErrorView;

verus! {

/// Why a token sequence is no program.
#[derive(Debug)]
pub enum AstParserError {
    /// The stream ended where a token was required.
    TokenIsNone,
    /// A token that cannot stand where it was found.
    UnexpectedToken(Token),
    /// A token of this kind was required and one of another kind came.
    ExpectedToken(Token),
    /// A `let` of a name that is declared already.
    IdentifierAlreadyUsed(String),
    /// A reference to a name that no `let` has declared.
    IdentifierUndeclared(String),
}

/// What an [`AstParserError`] stands for, with names as sequences of
/// characters.
pub enum AstParserErrorView {
    TokenIsNone,
    UnexpectedToken(TokenView),
    ExpectedToken(TokenView),
    IdentifierAlreadyUsed(Seq<char>),
    IdentifierUndeclared(Seq<char>),
}

impl View for AstParserError {
    type V = AstParserErrorView;

    open spec fn view(&self) -> AstParserErrorView {
        match self {
            AstParserError::TokenIsNone => AstParserErrorView::TokenIsNone,
            AstParserError::UnexpectedToken(token) => AstParserErrorView::UnexpectedToken(token@),
            AstParserError::ExpectedToken(token) => AstParserErrorView::ExpectedToken(token@),
            AstParserError::IdentifierAlreadyUsed(name) => AstParserErrorView::IdentifierAlreadyUsed(
                name@,
            ),
            AstParserError::IdentifierUndeclared(name) => AstParserErrorView::IdentifierUndeclared(
                name@,
            ),
        }
    }
}

impl PartialEq for AstParserError {
    fn eq(&self, other: &Self) -> (r: bool) {
        match self {
            AstParserError::TokenIsNone => match other {
                AstParserError::TokenIsNone => true,
                _ => false,
            },
            AstParserError::UnexpectedToken(a) => match other {
                AstParserError::UnexpectedToken(b) => *a == *b,
                _ => false,
            },
            AstParserError::ExpectedToken(a) => match other {
                AstParserError::ExpectedToken(b) => *a == *b,
                _ => false,
            },
            AstParserError::IdentifierAlreadyUsed(a) => match other {
                AstParserError::IdentifierAlreadyUsed(b) => *a == *b,
                _ => false,
            },
            AstParserError::IdentifierUndeclared(a) => match other {
                AstParserError::IdentifierUndeclared(b) => *a == *b,
                _ => false,
            },
        }
    }
}

impl PartialEqSpecImpl for AstParserError {
    open spec fn obeys_eq_spec() -> bool {
        true
    }

    open spec fn eq_spec(&self, other: &Self) -> bool {
        self@ == other@
    }
}

/// A source of tokens with one token of lookahead. It ends where its
/// tokens are used up, which may be short of the end of the input: at the
/// first word that is no token, or where the input could not be read.
pub trait TokenIterator: Sized {
    /// The tokens that are still to come, in order.
    spec fn remaining(&self) -> Seq<TokenView>;

    /// Whether a token was asked for when none was left.
    spec fn ran_out(&self) -> bool;

    /// The error that cuts this stream short, if one does: a word that is
    /// no token, or an input that could not be read further. It stands
    /// behind the last token, whether or not it has been reached.
    spec fn ending(&self) -> Option<StreamErrorView>;

    /// Takes the next token. Fails where the stream has ended.
    fn next_token(&mut self) -> (r: Result<Token, AstParserError>)
        ensures
            final(self).ending() == old(self).ending(),
            final(self).ran_out() == (old(self).ran_out() || old(self).remaining().len() == 0),
            old(self).remaining().len() == 0 ==> r is Err && r->Err_0@
                == AstParserErrorView::TokenIsNone && final(self).remaining() == old(
                self,
            ).remaining(),
            old(self).remaining().len() > 0 ==> r is Ok && r->Ok_0@ == old(self).remaining()[0]
                && final(self).remaining() == old(self).remaining().drop_first(),
    ;

    /// Looks at the next token without taking it. Fails where the stream
    /// has ended.
    fn peek_token(&mut self) -> (r: Result<&Token, AstParserError>)
        ensures
            final(self).ending() == old(self).ending(),
            final(self).ran_out() == (old(self).ran_out() || old(self).remaining().len() == 0),
            final(self).remaining() == old(self).remaining(),
            old(self).remaining().len() == 0 ==> r is Err && r->Err_0@
                == AstParserErrorView::TokenIsNone,
            old(self).remaining().len() > 0 ==> r is Ok && r->Ok_0@ == old(self).remaining()[0],
    ;

    /// Takes the next token and requires it to be of the kind of `token`,
    /// whatever name or value either carries. Fails with `TokenIsNone`
    /// where the stream has ended, and with `ExpectedToken(token)` where a
    /// token of another kind came; that token is taken all the same.
    fn expect_token(&mut self, token: Token) -> (r: Result<Token, AstParserError>)
        ensures
            final(self).ending() == old(self).ending(),
            final(self).ran_out() == (old(self).ran_out() || old(self).remaining().len() == 0),
            old(self).remaining().len() == 0 ==> r is Err && r->Err_0@
                == AstParserErrorView::TokenIsNone && final(self).remaining() == old(
                self,
            ).remaining(),
            old(self).remaining().len() > 0 ==> final(self).remaining() == old(
                self,
            ).remaining().drop_first(),
            old(self).remaining().len() > 0 && old(self).remaining()[0].kind() == token@.kind()
                ==> r is Ok && r->Ok_0@ == old(self).remaining()[0],
            old(self).remaining().len() > 0 && old(self).remaining()[0].kind() != token@.kind()
                ==> r is Err && r->Err_0@ == AstParserErrorView::ExpectedToken(token@),
    ;
}

/// A token stream over tokens held in memory. No error cuts it short.
pub struct TokenStream {
    tokens: Vec<Token>,
    pos: usize,
    ran_out: bool,
}

impl TokenStream {
    #[verifier::type_invariant]
    spec fn in_bounds(self) -> bool {
        self.pos <= self.tokens.len()
    }

    /// A stream that hands out `tokens` from the first one on.
    pub fn new(tokens: Vec<Token>) -> (r: TokenStream)
        ensures
            r.remaining() == token_views(tokens@),
            !r.ran_out(),
            r.ending() is None,
    {
        assert(token_views(tokens@).skip(0) == token_views(tokens@));
        TokenStream { tokens, pos: 0, ran_out: false }
    }
}

impl TokenIterator for TokenStream {
    closed spec fn remaining(&self) -> Seq<TokenView> {
        token_views(self.tokens@).skip(self.pos as int)
    }

    closed spec fn ran_out(&self) -> bool {
        self.ran_out
    }

    open spec fn ending(&self) -> Option<StreamErrorView> {
        None
    }

    fn next_token(&mut self) -> (r: Result<Token, AstParserError>) {
        proof {
            use_type_invariant(&*self);
        }
        if self.pos < self.tokens.len() {
            let token = self.tokens[self.pos].clone();
            self.pos = self.pos + 1;
            Ok(token)
        } else {
            self.ran_out = true;
            Err(AstParserError::TokenIsNone)
        }
    }

    fn peek_token(&mut self) -> (r: Result<&Token, AstParserError>) {
        proof {
            use_type_invariant(&*self);
        }
        if self.pos < self.tokens.len() {
            Ok(&self.tokens[self.pos])
        } else {
            self.ran_out = true;
            Err(AstParserError::TokenIsNone)
        }
    }

    fn expect_token(&mut self, token: Token) -> (r: Result<Token, AstParserError>) {
        let token_received = self.next_token()?;
        if token.kind() == token_received.kind() {
            Ok(token_received)
        } else {
            Err(AstParserError::ExpectedToken(token))
        }
    }
}

/// One line of emitted assembly: two spaces of indentation, the text, and
/// a line feed.
pub open spec fn asm_line(line: Seq<char>) -> Seq<char> {
    seq![' ', ' '] + line + seq!['\n']
}

/// The sink that emitted assembly goes to. It only ever grows at its end.
pub struct AsmStream {
    output: String,
}

impl View for AsmStream {
    type V = Seq<char>;

    /// The text emitted so far.
    closed spec fn view(&self) -> Seq<char> {
        self.output@
    }
}

impl AsmStream {
    /// A sink that holds nothing yet.
    pub fn new() -> (r: AsmStream)
        ensures
            r@ == Seq::<char>::empty(),
    {
        AsmStream { output: String::new() }
    }

    fn write(&mut self, data: &str)
        ensures
            final(self)@ == old(self)@ + data@,
    {
        self.output.append(data);
    }

    fn writeln(&mut self, data: &str)
        ensures
            final(self)@ == old(self)@ + data@ + seq!['\n'],
    {
        self.write(data);
        self.write("\n");
        proof {
            reveal_strlit("\n");
            assert("\n"@ == seq!['\n']);
        }
    }

    /// Emits `line` as one line: see [`asm_line`].
    pub fn write_line(&mut self, line: &str)
        ensures
            final(self)@ == old(self)@ + asm_line(line@),
    {
        self.write("  ");
        self.writeln(line);
        proof {
            reveal_strlit("  ");
            assert("  "@ == seq![' ', ' ']);
            assert(old(self)@ + seq![' ', ' '] + line@ + seq!['\n'] == old(self)@ + asm_line(
                line@,
            ));
        }
    }

    /// Emits `line` as one line: see [`asm_line`].
    pub fn write_line_string(&mut self, line: String)
        ensures
            final(self)@ == old(self)@ + asm_line(line@),
    {
        self.write_line(line.as_str())
    }

    /// The text emitted so far.
    pub fn into_string(self) -> (r: String)
        ensures
            r@ == self@,
    {
        self.output
    }
}

/// The runtime stack as code generation sees it: how many 8-byte slots
/// are pushed, and for each declared name the depth that was recorded when
/// it was declared.
pub struct StackView {
    pub depth: nat,
    pub slots: Map<Seq<char>, nat>,
}

impl StackView {
    /// The deepest stack that is tracked: every offset into it fits a
    /// machine word.
    pub open spec fn max_depth() -> nat {
        (usize::MAX / 8) as nat
    }

    /// The stack before anything is pushed or declared.
    pub open spec fn empty() -> StackView {
        StackView { depth: 0, slots: Map::empty() }
    }

    /// The stack after one more slot is pushed.
    pub open spec fn push(self) -> StackView {
        StackView { depth: self.depth + 1, slots: self.slots }
    }

    /// The stack after the top slot is popped.
    pub open spec fn pop(self) -> StackView {
        StackView { depth: (self.depth - 1) as nat, slots: self.slots }
    }

    /// The stack after `name` is declared at the current depth.
    pub open spec fn declare(self, name: Seq<char>) -> StackView {
        StackView { depth: self.depth, slots: self.slots.insert(name, self.depth) }
    }

    /// Whether `name` is declared and its slot is on the stack.
    pub open spec fn resolves(self, name: Seq<char>) -> bool {
        self.slots.contains_key(name) && self.slots[name] < self.depth
    }

    /// The distance in bytes from the top of the stack down to the slot of
    /// `name`.
    pub open spec fn offset(self, name: Seq<char>) -> int {
        (self.depth - self.slots[name] - 1) * 8
    }
}

/// Tracks the runtime stack during code generation: the number of slots
/// pushed so far, and the depth recorded for each declared name.
pub struct StackVarIdxMap {
    stack_size: usize,
    ident_stack_pos: StringHashMap<usize>,
}

impl View for StackVarIdxMap {
    type V = StackView;

    closed spec fn view(&self) -> StackView {
        StackView {
            depth: self.stack_size as nat,
            slots: self.ident_stack_pos@.map_values(|location: usize| location as nat),
        }
    }
}

impl StackVarIdxMap {
    /// A tracker of the empty stack, with no name declared.
    pub fn new() -> (r: StackVarIdxMap)
        ensures
            r@ == StackView::empty(),
    {
        let r = StackVarIdxMap { stack_size: 0, ident_stack_pos: StringHashMap::new() };
        assert(r@.slots =~= Map::empty());
        r
    }

    /// Emits a push of `reg` and counts the new slot.
    pub fn write_push(&mut self, asm_stream: &mut AsmStream, reg: &str)
        requires
            old(self)@.depth < StackView::max_depth(),
        ensures
            final(self)@ == old(self)@.push(),
            final(asm_stream)@ == old(asm_stream)@ + asm_line("push "@ + reg@),
    {
        self.stack_size = self.stack_size + 1;
        let mut line = "push ".to_owned();
        line.append(reg);
        asm_stream.write_line_string(line);
    }

    /// Emits a pop into `reg` and counts the slot as gone.
    pub fn write_pop(&mut self, asm_stream: &mut AsmStream, reg: &str)
        requires
            old(self)@.depth > 0,
        ensures
            final(self)@ == old(self)@.pop(),
            final(asm_stream)@ == old(asm_stream)@ + asm_line("pop "@ + reg@),
    {
        self.stack_size = self.stack_size - 1;
        let mut line = "pop ".to_owned();
        line.append(reg);
        asm_stream.write_line_string(line);
    }

    /// Records the current depth as the slot of `ident`. A name that was
    /// declared before is moved to the current depth.
    pub fn insert_ident(&mut self, ident: &str)
        ensures
            final(self)@ == old(self)@.declare(ident@),
    {
        self.ident_stack_pos.insert(ident.to_owned(), self.stack_size);
        assert(self@.slots =~= old(self)@.slots.insert(ident@, old(self)@.depth));
    }

    /// The distance in bytes from the top of the stack to the slot of
    /// `ident`, or `None` where `ident` was never declared. The slot of a
    /// declared name has to be on the stack, and the stack no deeper than
    /// [`StackView::max_depth`].
    pub fn get_stack_offeset(&self, ident: &str) -> (r: Option<usize>)
        requires
            self@.slots.contains_key(ident@) ==> self@.resolves(ident@),
            self@.depth <= StackView::max_depth(),
        ensures
            self@.slots.contains_key(ident@) ==> r is Some && r->0 == self@.offset(ident@),
            !self@.slots.contains_key(ident@) ==> r is None,
    {
        match self.ident_stack_pos.get(ident) {
            Some(location) => Some((self.stack_size - *location - 1) * 8),
            None => None,
        }
    }
}

/// What one parsing step does on a token sequence: its result, the number
/// of tokens it takes from the front, the names that are declared when it
/// is done, and whether it asked for a token when none was left.
pub struct ParseStep<T> {
    pub result: Result<T, AstParserErrorView>,
    pub read: nat,
    pub declared: Set<Seq<char>>,
    pub ran_out: bool,
}

/// A node of the syntax tree: it is parsed from tokens, and it emits its
/// assembly.
pub trait TreeParser: Sized + View {
    /// What parsing one such node does on `tokens`, with the names in
    /// `declared` declared so far.
    spec fn parse_step(tokens: Seq<TokenView>, declared: Set<Seq<char>>) -> ParseStep<Self::V>;

    /// Whether code can be generated for this node on the stack `stack`.
    spec fn can_emit(&self, stack: StackView) -> bool;

    /// The assembly of this node on the stack `stack`.
    spec fn emitted(&self, stack: StackView) -> Seq<char>;

    /// The stack that the assembly of this node leaves behind.
    spec fn stack_after(&self, stack: StackView) -> StackView;

    /// Parses one node from the front of `iter`. `declared` holds the names
    /// declared so far and gains each name that the node declares.
    fn try_from_iter<I: TokenIterator>(iter: &mut I, declared: &mut StringHashSet) -> (r: Result<
        Self,
        AstParserError,
    >)
        ensures
            result_view(r) == Self::parse_step(old(iter).remaining(), old(declared)@).result,
            final(iter).remaining() == old(iter).remaining().skip(
                Self::parse_step(old(iter).remaining(), old(declared)@).read as int,
            ),
            final(declared)@ == Self::parse_step(old(iter).remaining(), old(declared)@).declared,
            final(iter).ran_out() == (old(iter).ran_out() || Self::parse_step(
                old(iter).remaining(),
                old(declared)@,
            ).ran_out),
            final(iter).ending() == old(iter).ending(),
    ;

    /// Emits the assembly of this node to `asm_stream` and keeps `tracker`
    /// in step with the pushes and pops that it emits.
    fn to_asm(&self, asm_stream: &mut AsmStream, tracker: &mut StackVarIdxMap)
        requires
            self.can_emit(old(tracker)@),
        ensures
            final(asm_stream)@ == old(asm_stream)@ + self.emitted(old(tracker)@),
            final(tracker)@ == self.stack_after(old(tracker)@),
    ;
}

/// The views of the statements `statements`, in order.
pub open spec fn statement_views(statements: Seq<Statement>) -> Seq<StatementView> {
    statements.map_values(|statement: Statement| statement@)
}

/// Parsing a whole token sequence: statement after statement until the
/// tokens are used up, or the first error.
pub open spec fn parse_program(tokens: Seq<TokenView>, declared: Set<Seq<char>>) -> Result<
    Seq<StatementView>,
    AstParserErrorView,
>
    decreases tokens.len(),
    via parse_program_decreases
{
    let step = parse_statement(tokens, declared);
    if tokens.len() == 0 {
        Ok(Seq::empty())
    } else {
        match step.result {
            Err(error) => Err(error),
            Ok(statement) => match parse_program(tokens.skip(step.read as int), step.declared) {
                Ok(rest) => Ok(seq![statement] + rest),
                Err(error) => Err(error),
            },
        }
    }
}

#[via_fn]
proof fn parse_program_decreases(tokens: Seq<TokenView>, declared: Set<Seq<char>>) {
    if tokens.len() > 0 {
        lemma_statement_reads(tokens, declared);
    }
}

/// The number of tokens that parsing a whole token sequence takes: all of
/// them where it succeeds, and those up to the failure where it fails.
pub open spec fn parse_reads(tokens: Seq<TokenView>, declared: Set<Seq<char>>) -> nat
    decreases tokens.len(),
    via parse_reads_decreases
{
    let step = parse_statement(tokens, declared);
    if tokens.len() == 0 {
        0
    } else {
        match step.result {
            Err(_) => step.read,
            Ok(_) => step.read + parse_reads(tokens.skip(step.read as int), step.declared),
        }
    }
}

#[via_fn]
proof fn parse_reads_decreases(tokens: Seq<TokenView>, declared: Set<Seq<char>>) {
    if tokens.len() > 0 {
        lemma_statement_reads(tokens, declared);
    }
}

/// Whether parsing a whole token sequence asks for a token when none is
/// left. It does where it comes to the end of the tokens, in the middle of
/// a statement or after the last one, and it does not where it fails on a
/// token before that.
pub open spec fn parse_runs_out(tokens: Seq<TokenView>, declared: Set<Seq<char>>) -> bool
    decreases tokens.len(),
    via parse_runs_out_decreases
{
    let step = parse_statement(tokens, declared);
    if tokens.len() == 0 {
        true
    } else {
        match step.result {
            Err(_) => step.ran_out,
            Ok(_) => parse_runs_out(tokens.skip(step.read as int), step.declared),
        }
    }
}

#[via_fn]
proof fn parse_runs_out_decreases(tokens: Seq<TokenView>, declared: Set<Seq<char>>) {
    if tokens.len() > 0 {
        lemma_statement_reads(tokens, declared);
    }
}

/// A statement takes at least one token from a sequence that has any, and
/// never more than there are.
pub proof fn lemma_statement_reads(tokens: Seq<TokenView>, declared: Set<Seq<char>>)
    requires
        tokens.len() > 0,
    ensures
        0 < parse_statement(tokens, declared).read <= tokens.len(),
{
}

/// Parsing never takes more tokens than there are, and takes them all
/// where it succeeds.
pub proof fn lemma_parse_reads(tokens: Seq<TokenView>, declared: Set<Seq<char>>)
    ensures
        parse_reads(tokens, declared) <= tokens.len(),
        parse_program(tokens, declared) is Ok ==> parse_reads(tokens, declared) == tokens.len(),
    decreases tokens.len(),
{
    if tokens.len() > 0 {
        let step = parse_statement(tokens, declared);
        lemma_statement_reads(tokens, declared);
        lemma_parse_reads(tokens.skip(step.read as int), step.declared);
    }
}

/// Whether code can be generated for `statements`, one after the other,
/// starting on the stack `stack`.
pub open spec fn program_can_emit(statements: Seq<StatementView>, stack: StackView) -> bool
    decreases statements.len(),
{
    statements.len() > 0 ==> statement_can_emit(statements[0], stack) && program_can_emit(
        statements.drop_first(),
        statement_stack(statements[0], stack),
    )
}

/// The assembly of `statements`, one after the other, starting on the
/// stack `stack`.
pub open spec fn program_asm(statements: Seq<StatementView>, stack: StackView) -> Seq<char>
    decreases statements.len(),
{
    if statements.len() == 0 {
        Seq::empty()
    } else {
        statement_asm(statements[0], stack) + program_asm(
            statements.drop_first(),
            statement_stack(statements[0], stack),
        )
    }
}

/// The stack that the assembly of `statements` leaves behind.
pub open spec fn program_stack(statements: Seq<StatementView>, stack: StackView) -> StackView
    decreases statements.len(),
{
    if statements.len() == 0 {
        stack
    } else {
        program_stack(statements.drop_first(), statement_stack(statements[0], stack))
    }
}

/// What every emitted text starts with: the declaration of the entry
/// symbol, an empty line, and the entry label.
pub open spec fn prologue() -> Seq<char> {
    asm_line("global _start\n\n_start:"@)
}

/// A program: its statements in the order in which they are written, run
/// and emitted.
#[derive(Debug)]
pub struct Program(Vec<Statement>);

impl View for Program {
    type V = Seq<StatementView>;

    closed spec fn view(&self) -> Seq<StatementView> {
        statement_views(self.0@)
    }
}

impl PartialEq for Program {
    fn eq(&self, other: &Self) -> (r: bool) {
        if self.0.len() != other.0.len() {
            return false;
        }
        let mut i: usize = 0;
        while i < self.0.len()
            invariant
                i <= self.0.len(),
                self.0.len() == other.0.len(),
                self@.take(i as int) == other@.take(i as int),
            decreases self.0.len() - i,
        {
            if self.0[i] != other.0[i] {
                assert(self@[i as int] != other@[i as int]);
                return false;
            }
            assert(self@.take(i + 1) == self@.take(i as int).push(self@[i as int]));
            assert(other@.take(i + 1) == other@.take(i as int).push(other@[i as int]));
            i += 1;
        }
        assert(self@.take(i as int) == self@ && other@.take(i as int) == other@);
        true
    }
}

impl PartialEqSpecImpl for Program {
    open spec fn obeys_eq_spec() -> bool {
        true
    }

    open spec fn eq_spec(&self, other: &Self) -> bool {
        self@ == other@
    }
}

impl Program {
    /// The program made of `statements`, in this order.
    pub fn new(statements: Vec<Statement>) -> (r: Program)
        ensures
            r@ == statement_views(statements@),
    {
        Program(statements)
    }

    /// The statements of this program, in order.
    pub fn statements(&self) -> (r: &Vec<Statement>)
        ensures
            statement_views(r@) == self@,
    {
        &self.0
    }

    /// Whether code can be generated for this program: see
    /// [`program_can_emit`].
    pub open spec fn can_emit(&self) -> bool {
        program_can_emit(self@, StackView::empty())
    }

    /// The assembly of this program: the prologue, then the assembly of
    /// each statement in order, generated on a stack that starts empty.
    pub fn to_asm(&self) -> (r: String)
        requires
            self.can_emit(),
        ensures
            r@ == prologue() + program_asm(self@, StackView::empty()),
    {
        let mut asm_stream = AsmStream::new();
        let mut tracker = StackVarIdxMap::new();
        asm_stream.write_line("global _start\n\n_start:");
        let mut i: usize = 0;
        proof {
            assert(self@.skip(0) == self@);
            assert(asm_stream@ == prologue());
            assert(prologue() + Seq::<char>::empty() == prologue());
        }
        while i < self.0.len()
            invariant
                i <= self.0.len(),
                program_can_emit(self@.skip(i as int), tracker@),
                asm_stream@ + program_asm(self@.skip(i as int), tracker@) == prologue()
                    + program_asm(self@, StackView::empty()),
            decreases self.0.len() - i,
        {
            let ghost rest = self@.skip(i as int);
            let ghost before = asm_stream@;
            let ghost stack = tracker@;
            proof {
                assert(rest[0] == self.0[i as int]@);
                assert(rest.drop_first() == self@.skip(i + 1));
            }
            self.0[i].to_asm(&mut asm_stream, &mut tracker);
            proof {
                assert(before + (statement_asm(rest[0], stack) + program_asm(
                    rest.drop_first(),
                    tracker@,
                )) == before + statement_asm(rest[0], stack) + program_asm(
                    rest.drop_first(),
                    tracker@,
                ));
            }
            i += 1;
        }
        proof {
            assert(asm_stream@ + Seq::<char>::empty() == asm_stream@);
        }
        asm_stream.into_string()
    }

    /// Parses a whole token stream: see [`parse_program`]. No name is
    /// declared at its start. Tokens are taken one at a time, and none
    /// after the one on which parsing fails.
    pub fn try_from_iter<I: TokenIterator>(iter: &mut I) -> (r: Result<Program, AstParserError>)
        ensures
            result_view(r) == parse_program(old(iter).remaining(), Set::empty()),
            final(iter).remaining() == old(iter).remaining().skip(
                parse_reads(old(iter).remaining(), Set::empty()) as int,
            ),
            final(iter).ran_out() == (old(iter).ran_out() || parse_runs_out(
                old(iter).remaining(),
                Set::empty(),
            )),
            final(iter).ending() == old(iter).ending(),
    {
        let ghost tokens = iter.remaining();
        let mut declared = StringHashSet::new();
        let mut statements: Vec<Statement> = Vec::new();
        assert(statement_views(statements@) + parse_program(tokens, Set::empty())->Ok_0
            == parse_program(tokens, Set::empty())->Ok_0);
        loop
            invariant
                tokens == old(iter).remaining(),
                iter.ending() == old(iter).ending(),
                tokens.skip(parse_reads(tokens, Set::empty()) as int) == iter.remaining().skip(
                    parse_reads(iter.remaining(), declared@) as int,
                ),
                (old(iter).ran_out() || parse_runs_out(tokens, Set::empty())) == (iter.ran_out()
                    || parse_runs_out(iter.remaining(), declared@)),
                match parse_program(iter.remaining(), declared@) {
                    Ok(rest) => parse_program(tokens, Set::empty()) == Ok::<
                        Seq<StatementView>,
                        AstParserErrorView,
                    >(statement_views(statements@) + rest),
                    Err(error) => parse_program(tokens, Set::empty()) == Err::<
                        Seq<StatementView>,
                        AstParserErrorView,
                    >(error),
                },
            decreases iter.remaining().len(),
        {
            let ghost rest = iter.remaining();
            let ghost earlier = statement_views(statements@);
            if iter.peek_token().is_err() {
                proof {
                    assert(earlier + Seq::<StatementView>::empty() == earlier);
                    assert(rest.skip(0) == rest);
                }
                return Ok(Program(statements));
            }
            let ghost step = parse_statement(rest, declared@);
            proof {
                lemma_statement_reads(rest, declared@);
            }
            let statement = Statement::try_from_iter(iter, &mut declared)?;
            statements.push(statement);
            proof {
                let more = parse_reads(iter.remaining(), declared@);
                assert(rest.skip((step.read + more) as int) == rest.skip(step.read as int).skip(
                    more as int,
                )) by {
                    lemma_parse_reads(iter.remaining(), declared@);
                }
                assert(statement_views(statements@) == earlier.push(statement@));
                if let Ok(later) = parse_program(iter.remaining(), declared@) {
                    assert(earlier.push(statement@) + later == earlier + (seq![statement@]
                        + later));
                }
            }
        }
    }
}

/// Something that can be parsed into a [`Program`].
pub trait Parser: Sized {
    /// The tokens that are parsed.
    spec fn tokens(&self) -> Seq<TokenView>;

    /// Parses all the tokens into a program, or fails with the first
    /// error: see [`parse_program`].
    fn parse(self) -> (r: Result<Program, AstParserError>)
        ensures
            result_view(r) == parse_program(self.tokens(), Set::empty()),
    ;
}

impl<I: TokenIterator> Parser for I {
    open spec fn tokens(&self) -> Seq<TokenView> {
        self.remaining()
    }

    fn parse(self) -> (r: Result<Program, AstParserError>) {
        let mut iter = self;
        Program::try_from_iter(&mut iter)
    }
}

} // verus!
