//! A compiler for a minimal imperative language: integer literals, `let`
//! bindings, variable references and `exit`. A source text is lexed, parsed
//! and compiled to x86-64 assembly that evaluates on the runtime stack.
//!
//! - [`token`] and [`tokenization`]: tokens, and the lexer that hands them
//!   out one at a time.
//! - [`parser`] and [`grammar`]: the token stream, the syntax tree and its
//!   parser, the stack tracker and the code generator.
//! - [`scope`]: what the parser guarantees of a program, what the code
//!   generator needs, and how stack offsets count bindings.
//! - [`compiler`]: the pipeline from source text to assembly text.
//! - [`chars`] and [`decimal`]: character classes and decimal notation.

pub mod chars;
pub mod decimal;
pub mod token;
pub mod tokenization;
pub mod parser;
pub mod grammar;
pub mod scope;
pub mod compiler;
