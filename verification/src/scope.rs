//! Scoping: which names a statement may refer to, and why code can be
//! generated for exactly the programs whose references are all in scope.

use vstd::hash_set::StringHashSet;
use vstd::prelude::*;
use crate::grammar::{
    parse_statement,
    statement_asm,
    statement_can_emit,
    statement_expr,
    statement_scope,
    statement_stack,
    Expr,
    ExprView,
    Statement,
    StatementView,
};
use crate::parser::{
    parse_program,
    program_asm,
    program_can_emit,
    program_stack,
    statement_views,
    Program,
    StackView,
};
use crate::token::TokenView;

verus! {

/// The names that are declared once `statement` is done, where `declared`
/// were declared before it.
pub open spec fn statement_declares(statement: StatementView, declared: Set<Seq<char>>) -> Set<
    Seq<char>,
> {
    match statement {
        StatementView::Exit(_) => declared,
        StatementView::Let { ident, .. } => declared.insert(ident),
    }
}

/// Whether the name that `statement` refers to, if any, was declared by an
/// earlier statement. The name that a `let` declares is not in scope in
/// its own expression.
pub open spec fn statement_in_scope(statement: StatementView, declared: Set<Seq<char>>) -> bool {
    match statement {
        StatementView::Exit(expr) => expr is Ident ==> declared.contains(expr->Ident_0),
        StatementView::Let { ident, expr } => expr is Ident ==> declared.contains(expr->Ident_0)
            && expr->Ident_0 != ident,
    }
}

/// Whether every statement of `statements` refers only to names declared
/// before it, where `declared` were declared before the first.
pub open spec fn in_scope(statements: Seq<StatementView>, declared: Set<Seq<char>>) -> bool
    decreases statements.len(),
{
    statements.len() > 0 ==> statement_in_scope(statements[0], declared) && in_scope(
        statements.drop_first(),
        statement_declares(statements[0], declared),
    )
}

/// The number of slots that `statement` leaves on the stack: one for a
/// `let`, none for an `exit`.
pub open spec fn statement_slots(statement: StatementView) -> nat {
    if statement is Let {
        1
    } else {
        0
    }
}

/// The number of `let` statements among `statements`.
pub open spec fn let_count(statements: Seq<StatementView>) -> nat
    decreases statements.len(),
{
    if statements.len() == 0 {
        0
    } else {
        statement_slots(statements[0]) + let_count(statements.drop_first())
    }
}

/// Whether the stack stays below [`StackView::max_depth`] before each of
/// `statements`, where it is `depth` slots deep before the first.
pub open spec fn fits(statements: Seq<StatementView>, depth: nat) -> bool
    decreases statements.len(),
{
    statements.len() > 0 ==> depth < StackView::max_depth() && fits(
        statements.drop_first(),
        depth + statement_slots(statements[0]),
    )
}

/// Whether `stack` holds a slot for each name of `declared` and for no
/// other name.
pub open spec fn tracks(stack: StackView, declared: Set<Seq<char>>) -> bool {
    &&& stack.slots.dom() == declared
    &&& forall|name: Seq<char>| declared.contains(name) ==> stack.resolves(name)
}

/// On a stack that holds the declared names, code can be generated for a
/// statement exactly when its reference is in scope and there is room for
/// one more slot; the stack then holds the names that are declared after
/// it, and is deeper by the slots that the statement leaves.
pub proof fn lemma_statement_can_emit(
    statement: StatementView,
    stack: StackView,
    declared: Set<Seq<char>>,
)
    requires
        tracks(stack, declared),
    ensures
        statement_can_emit(statement, stack) == (statement_in_scope(statement, declared)
            && stack.depth < StackView::max_depth()),
        tracks(statement_stack(statement, stack), statement_declares(statement, declared)),
        statement_stack(statement, stack).depth == stack.depth + statement_slots(statement),
{
    let after = statement_stack(statement, stack);
    let names = statement_declares(statement, declared);
    assert(after.slots.dom() =~= names);
    assert forall|name: Seq<char>| names.contains(name) implies after.resolves(name) by {
        if declared.contains(name) {
            assert(stack.resolves(name));
        }
    }
    if let ExprView::Ident(name) = statement_expr(statement) {
        if declared.contains(name) {
            assert(stack.resolves(name));
        }
    }
}

/// On a stack that holds the declared names, code can be generated for
/// `statements` exactly when every reference is in scope and the stack
/// stays below its bound.
pub proof fn lemma_program_can_emit(
    statements: Seq<StatementView>,
    stack: StackView,
    declared: Set<Seq<char>>,
)
    requires
        tracks(stack, declared),
    ensures
        program_can_emit(statements, stack) == (in_scope(statements, declared) && fits(
            statements,
            stack.depth,
        )),
    decreases statements.len(),
{
    if statements.len() > 0 {
        lemma_statement_can_emit(statements[0], stack, declared);
        lemma_program_can_emit(
            statements.drop_first(),
            statement_stack(statements[0], stack),
            statement_declares(statements[0], declared),
        );
    }
}

/// Whether `statement` keeps the rules that the parser enforces, with the
/// names `declared` declared before it: a `let` declares a new name, and
/// a reference is to a declared name, which in a `let` may be its own.
pub open spec fn statement_accepted(statement: StatementView, declared: Set<Seq<char>>) -> bool {
    match statement {
        StatementView::Exit(expr) => expr is Ident ==> declared.contains(expr->Ident_0),
        StatementView::Let { ident, expr } => !declared.contains(ident) && (expr is Ident
            ==> declared.insert(ident).contains(expr->Ident_0)),
    }
}

/// Whether each of `statements` keeps the rules that the parser enforces,
/// where `declared` were declared before the first: no name is declared
/// twice, and none is referred to before the `let` that declares it.
pub open spec fn accepted(statements: Seq<StatementView>, declared: Set<Seq<char>>) -> bool
    decreases statements.len(),
{
    statements.len() > 0 ==> statement_accepted(statements[0], declared) && accepted(
        statements.drop_first(),
        statement_declares(statements[0], declared),
    )
}

/// Whether no `let` of `statements` reads the name that it declares.
pub open spec fn no_self_reference(statements: Seq<StatementView>) -> bool {
    forall|i: int|
        0 <= i < statements.len() ==> match #[trigger] statements[i] {
            StatementView::Let { ident, expr } => expr != ExprView::Ident(ident),
            StatementView::Exit(_) => true,
        }
}

/// A statement that parses takes five tokens, keeps the parser's rules,
/// and leaves declared what it declares.
pub proof fn lemma_parsed_statement(tokens: Seq<TokenView>, declared: Set<Seq<char>>)
    requires
        parse_statement(tokens, declared).result is Ok,
    ensures
        parse_statement(tokens, declared).read == 5,
        tokens.len() >= 5,
        statement_accepted(parse_statement(tokens, declared).result->Ok_0, declared),
        parse_statement(tokens, declared).declared == statement_declares(
            parse_statement(tokens, declared).result->Ok_0,
            declared,
        ),
{
}

/// A program that parses keeps the parser's rules: every name is declared
/// once, and before it is referred to.
pub proof fn lemma_parsed_program_is_accepted(tokens: Seq<TokenView>, declared: Set<Seq<char>>)
    requires
        parse_program(tokens, declared) is Ok,
    ensures
        accepted(parse_program(tokens, declared)->Ok_0, declared),
    decreases tokens.len(),
{
    if tokens.len() > 0 {
        let step = parse_statement(tokens, declared);
        lemma_parsed_statement(tokens, declared);
        let rest = parse_program(tokens.skip(step.read as int), step.declared);
        lemma_parsed_program_is_accepted(tokens.skip(step.read as int), step.declared);
        let statement = step.result->Ok_0;
        let program = parse_program(tokens, declared)->Ok_0;
        assert(program == seq![statement] + rest->Ok_0);
        assert(program[0] == statement);
        assert(program.drop_first() == rest->Ok_0);
    }
}

/// An accepted program in which no `let` reads its own name has every
/// reference in scope.
pub proof fn lemma_accepted_is_in_scope(statements: Seq<StatementView>, declared: Set<Seq<char>>)
    requires
        accepted(statements, declared),
        no_self_reference(statements),
    ensures
        in_scope(statements, declared),
    decreases statements.len(),
{
    if statements.len() > 0 {
        let rest = statements.drop_first();
        assert forall|i: int| 0 <= i < rest.len() implies match #[trigger] rest[i] {
            StatementView::Let { ident, expr } => expr != ExprView::Ident(ident),
            StatementView::Exit(_) => true,
        } by {
            assert(rest[i] == statements[i + 1]);
        }
        assert(statements[0] == statements[0]);
        lemma_accepted_is_in_scope(rest, statement_declares(statements[0], declared));
    }
}

/// Generating code for a sequence of statements is generating code for all
/// but the last, and then for the last on the stack that they leave.
pub proof fn lemma_program_ends_with(statements: Seq<StatementView>, stack: StackView)
    requires
        statements.len() > 0,
    ensures
        program_stack(statements, stack) == statement_stack(
            statements.last(),
            program_stack(statements.drop_last(), stack),
        ),
        program_asm(statements, stack) == program_asm(statements.drop_last(), stack)
            + statement_asm(statements.last(), program_stack(statements.drop_last(), stack)),
    decreases statements.len(),
{
    let first = statements[0];
    let next = statement_stack(first, stack);
    if statements.len() == 1 {
        assert(statements.drop_first() == Seq::<StatementView>::empty());
        assert(statements.drop_last() == Seq::<StatementView>::empty());
        assert(program_asm(statements.drop_first(), next) == Seq::<char>::empty());
        assert(program_stack(statements.drop_first(), next) == next);
        assert(program_stack(statements.drop_last(), stack) == stack);
        assert(statement_asm(first, stack) + Seq::<char>::empty() == Seq::<char>::empty()
            + statement_asm(first, stack));
    } else {
        let inner = statements.drop_first();
        lemma_program_ends_with(inner, next);
        assert(inner.last() == statements.last());
        assert(statements.drop_last()[0] == first);
        assert(statements.drop_last().drop_first() == inner.drop_last());
        let before_last = program_stack(inner.drop_last(), next);
        assert(program_stack(statements.drop_last(), stack) == before_last);
        assert(program_stack(statements, stack) == program_stack(inner, next));
        assert(statement_asm(first, stack) + (program_asm(inner.drop_last(), next) + statement_asm(
            statements.last(),
            before_last,
        )) == statement_asm(first, stack) + program_asm(inner.drop_last(), next) + statement_asm(
            statements.last(),
            before_last,
        ));
    }
}

/// The `let` statements of two sequences, one after the other, are those
/// of the first and those of the second.
pub proof fn lemma_let_count_of_both(first: Seq<StatementView>, second: Seq<StatementView>)
    ensures
        let_count(first + second) == let_count(first) + let_count(second),
    decreases first.len(),
{
    if first.len() == 0 {
        assert(first + second == second);
    } else {
        assert((first + second)[0] == first[0]);
        assert((first + second).drop_first() == first.drop_first() + second);
        lemma_let_count_of_both(first.drop_first(), second);
    }
}

/// The stack depth keeps count of the slots pushed and not popped: after
/// a sequence of statements it has grown by one slot for each `let`.
pub proof fn lemma_depth_counts_bindings(statements: Seq<StatementView>, stack: StackView)
    ensures
        program_stack(statements, stack).depth == stack.depth + let_count(statements),
    decreases statements.len(),
{
    if statements.len() > 0 {
        lemma_depth_counts_bindings(
            statements.drop_first(),
            statement_stack(statements[0], stack),
        );
    }
}

/// Whether `statement` is a `let` of `name`.
pub open spec fn declares(statement: StatementView, name: Seq<char>) -> bool {
    match statement {
        StatementView::Let { ident, .. } => ident == name,
        StatementView::Exit(_) => false,
    }
}

/// The slot of a name is the depth at its last `let`: before statement
/// `at`, the name declared by statement `declaration` and by none in
/// between is recorded with the number of `let` statements before
/// `declaration`.
pub proof fn lemma_slot_of_binding(
    statements: Seq<StatementView>,
    declaration: int,
    at: int,
    name: Seq<char>,
)
    requires
        0 <= declaration < at <= statements.len(),
        declares(statements[declaration], name),
        forall|k: int| declaration < k < at ==> !declares(#[trigger] statements[k], name),
    ensures
        program_stack(statements.take(at), StackView::empty()).slots.contains_key(name),
        program_stack(statements.take(at), StackView::empty()).slots[name] == let_count(
            statements.take(declaration),
        ),
    decreases at - declaration,
{
    let prefix = statements.take(at);
    let earlier = statements.take(at - 1);
    assert(prefix.drop_last() == earlier);
    assert(prefix.last() == statements[at - 1]);
    lemma_program_ends_with(prefix, StackView::empty());
    if at - 1 == declaration {
        lemma_depth_counts_bindings(earlier, StackView::empty());
    } else {
        lemma_slot_of_binding(statements, declaration, at - 1, name);
        assert(!declares(statements[at - 1], name));
    }
}

/// The offset of a variable counts the slots pushed since its own. On the
/// stack on which the expression of statement `reference` is evaluated,
/// the name that statement `declaration` has declared, and that neither a
/// statement in between nor `reference` itself declares again, has its
/// slot on the stack, at an offset of 8 bytes for each `let` between the
/// two.
pub proof fn lemma_offset_counts_later_bindings(
    statements: Seq<StatementView>,
    declaration: int,
    reference: int,
    name: Seq<char>,
)
    requires
        0 <= declaration < reference < statements.len(),
        declares(statements[declaration], name),
        forall|k: int| declaration < k <= reference ==> !declares(#[trigger] statements[k], name),
    ensures
        statement_scope(
            statements[reference],
            program_stack(statements.take(reference), StackView::empty()),
        ).resolves(name),
        statement_scope(
            statements[reference],
            program_stack(statements.take(reference), StackView::empty()),
        ).offset(name) == 8 * let_count(statements.subrange(declaration + 1, reference)),
{
    let before = program_stack(statements.take(reference), StackView::empty());
    lemma_slot_of_binding(statements, declaration, reference, name);
    lemma_depth_counts_bindings(statements.take(reference), StackView::empty());
    assert(!declares(statements[reference], name));
    let head = statements.take(declaration + 1);
    let between = statements.subrange(declaration + 1, reference);
    assert(statements.take(reference) == head + between);
    lemma_let_count_of_both(head, between);
    assert(head == statements.take(declaration) + seq![statements[declaration]]);
    lemma_let_count_of_both(statements.take(declaration), seq![statements[declaration]]);
    assert(let_count(seq![statements[declaration]]) == 1) by {
        assert(seq![statements[declaration]].drop_first() == Seq::<StatementView>::empty());
        assert(let_count(Seq::<StatementView>::empty()) == 0);
    }
}

impl Program {
    /// Decides whether code can be generated for this program: whether
    /// each reference is to a name that an earlier `let` has declared, and
    /// the stack stays below its bound.
    pub fn can_be_emitted(&self) -> (r: bool)
        ensures
            r == self.can_emit(),
    {
        let statements = self.statements();
        let ghost all = statement_views(statements@);
        let mut declared = StringHashSet::new();
        let mut depth: usize = 0;
        let mut i: usize = 0;
        proof {
            assert(tracks(StackView::empty(), Set::empty())) by {
                assert(StackView::empty().slots.dom() =~= Set::<Seq<char>>::empty());
            }
            lemma_program_can_emit(all, StackView::empty(), Set::empty());
            assert(all.skip(0) == all);
        }
        while i < statements.len()
            invariant
                i <= statements.len(),
                depth <= i,
                all == statement_views(statements@),
                all == self@,
                self.can_emit() == (in_scope(all.skip(i as int), declared@) && fits(
                    all.skip(i as int),
                    depth as nat,
                )),
            decreases statements.len() - i,
        {
            proof {
                assert(all.skip(i as int)[0] == statements[i as int]@);
                assert(all.skip(i as int).drop_first() == all.skip(i + 1));
            }
            if depth >= usize::MAX / 8 {
                return false;
            }
            match &statements[i] {
                Statement::Exit(expr) => {
                    if let Expr::Ident(name) = expr {
                        if !declared.contains(name.as_str()) {
                            return false;
                        }
                    }
                },
                Statement::Let { ident, expr } => {
                    if let Expr::Ident(name) = expr {
                        if !declared.contains(name.as_str()) || *name == *ident {
                            return false;
                        }
                    }
                    declared.insert(ident.clone());
                    depth = depth + 1;
                },
            }
            i += 1;
        }
        true
    }
}

} // verus!
