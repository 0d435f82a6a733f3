//! Tokens of the language, and how a single character or a whole word is
//! classified as one.

use std::str::FromStr;
use vstd::prelude::*;
use vstd::std_specs::cmp::PartialEqSpecImpl;
use vstd::std_specs::convert::TryFromSpecImpl;
use crate::chars::{char_is_ascii_alphabetic, chars_to_string, is_ascii_alphabetic, str_chars};
use crate::decimal::{parse_i64, read_i64};

verus! {

/// A lexical unit of the source text.
#[derive(Debug)]
pub enum Token {
    Eq,
    Let,
    Exit,
    Semi,
    ParenOpen,
    ParenClose,
    Ident(String),
    I64Literal(i64),
}

/// What a [`Token`] stands for: its variant, with an identifier's name as a
/// sequence of characters.
pub enum TokenView {
    Eq,
    Let,
    Exit,
    Semi,
    ParenOpen,
    ParenClose,
    Ident(Seq<char>),
    I64Literal(i64),
}

/// The variant of a [`Token`], without what it carries.
#[derive(Debug, Clone, Copy, PartialEq, Eq, Structural)]
pub enum TokenKind {
    Eq,
    Let,
    Exit,
    Semi,
    ParenOpen,
    ParenClose,
    Ident,
    I64Literal,
}

impl TokenView {
    /// The variant of this token.
    pub open spec fn kind(self) -> TokenKind {
        match self {
            TokenView::Eq => TokenKind::Eq,
            TokenView::Let => TokenKind::Let,
            TokenView::Exit => TokenKind::Exit,
            TokenView::Semi => TokenKind::Semi,
            TokenView::ParenOpen => TokenKind::ParenOpen,
            TokenView::ParenClose => TokenKind::ParenClose,
            TokenView::Ident(_) => TokenKind::Ident,
            TokenView::I64Literal(_) => TokenKind::I64Literal,
        }
    }
}

impl View for Token {
    type V = TokenView;

    open spec fn view(&self) -> TokenView {
        match self {
            Token::Eq => TokenView::Eq,
            Token::Let => TokenView::Let,
            Token::Exit => TokenView::Exit,
            Token::Semi => TokenView::Semi,
            Token::ParenOpen => TokenView::ParenOpen,
            Token::ParenClose => TokenView::ParenClose,
            Token::Ident(name) => TokenView::Ident(name@),
            Token::I64Literal(value) => TokenView::I64Literal(*value),
        }
    }
}

impl Clone for Token {
    fn clone(&self) -> (r: Self)
        ensures
            r@ == self@,
    {
        match self {
            Token::Eq => Token::Eq,
            Token::Let => Token::Let,
            Token::Exit => Token::Exit,
            Token::Semi => Token::Semi,
            Token::ParenOpen => Token::ParenOpen,
            Token::ParenClose => Token::ParenClose,
            Token::Ident(name) => Token::Ident(name.clone()),
            Token::I64Literal(value) => Token::I64Literal(*value),
        }
    }
}

impl PartialEq for Token {
    fn eq(&self, other: &Self) -> (r: bool) {
        match self {
            Token::Ident(a) => match other {
                Token::Ident(b) => *a == *b,
                _ => false,
            },
            Token::I64Literal(a) => match other {
                Token::I64Literal(b) => *a == *b,
                _ => false,
            },
            _ => self.kind() == other.kind(),
        }
    }
}

impl PartialEqSpecImpl for Token {
    open spec fn obeys_eq_spec() -> bool {
        true
    }

    open spec fn eq_spec(&self, other: &Self) -> bool {
        self@ == other@
    }
}

impl Token {
    /// The variant of this token. Two tokens match by kind when their
    /// variants agree, whatever name or value they carry.
    pub fn kind(&self) -> (r: TokenKind)
        ensures
            r == self@.kind(),
    {
        match self {
            Token::Eq => TokenKind::Eq,
            Token::Let => TokenKind::Let,
            Token::Exit => TokenKind::Exit,
            Token::Semi => TokenKind::Semi,
            Token::ParenOpen => TokenKind::ParenOpen,
            Token::ParenClose => TokenKind::ParenClose,
            Token::Ident(_) => TokenKind::Ident,
            Token::I64Literal(_) => TokenKind::I64Literal,
        }
    }
}

/// The views of the tokens `tokens`, in order.
pub open spec fn token_views(tokens: Seq<Token>) -> Seq<TokenView> {
    tokens.map_values(|token: Token| token@)
}

/// Why a character or a word is no token.
#[derive(Debug)]
pub enum TokenParseError {
    /// A single character that is none of `=`, `;`, `(`, `)`.
    InvalidControlChar(char),
    /// A word that is no keyword, no integer literal and no identifier.
    InvalidToken(String),
}

/// What a [`TokenParseError`] stands for, with the rejected word as a
/// sequence of characters.
pub enum TokenParseErrorView {
    InvalidControlChar(char),
    InvalidToken(Seq<char>),
}

impl View for TokenParseError {
    type V = TokenParseErrorView;

    open spec fn view(&self) -> TokenParseErrorView {
        match self {
            TokenParseError::InvalidControlChar(c) => TokenParseErrorView::InvalidControlChar(*c),
            TokenParseError::InvalidToken(word) => TokenParseErrorView::InvalidToken(word@),
        }
    }
}

impl PartialEq for TokenParseError {
    fn eq(&self, other: &Self) -> (r: bool) {
        match self {
            TokenParseError::InvalidControlChar(a) => match other {
                TokenParseError::InvalidControlChar(b) => *a == *b,
                _ => false,
            },
            TokenParseError::InvalidToken(a) => match other {
                TokenParseError::InvalidToken(b) => *a == *b,
                _ => false,
            },
        }
    }
}

impl PartialEqSpecImpl for TokenParseError {
    open spec fn obeys_eq_spec() -> bool {
        true
    }

    open spec fn eq_spec(&self, other: &Self) -> bool {
        self@ == other@
    }
}

/// Whether `c` is a token by itself: one of `=`, `;`, `(`, `)`.
pub open spec fn is_control_char(c: char) -> bool {
    c == '=' || c == ';' || c == '(' || c == ')'
}

/// The token that the single character `c` stands for: `=`, `;`, `(` and
/// `)` are tokens, every other character is an invalid control character.
pub open spec fn char_token(c: char) -> Result<TokenView, TokenParseErrorView> {
    if c == '=' {
        Ok(TokenView::Eq)
    } else if c == ';' {
        Ok(TokenView::Semi)
    } else if c == '(' {
        Ok(TokenView::ParenOpen)
    } else if c == ')' {
        Ok(TokenView::ParenClose)
    } else {
        Err(TokenParseErrorView::InvalidControlChar(c))
    }
}

/// The token that the word `word` stands for. The keywords `let` and `exit`
/// come first; then a signed 64-bit decimal literal; then an identifier,
/// which is any other word that starts with an ASCII letter. Every other
/// word is invalid.
pub open spec fn word_token(word: Seq<char>) -> Result<TokenView, TokenParseErrorView> {
    if word == seq!['l', 'e', 't'] {
        Ok(TokenView::Let)
    } else if word == seq!['e', 'x', 'i', 't'] {
        Ok(TokenView::Exit)
    } else if let Some(value) = parse_i64(word) {
        Ok(TokenView::I64Literal(value))
    } else if word.len() > 0 && is_ascii_alphabetic(word[0]) {
        Ok(TokenView::Ident(word))
    } else {
        Err(TokenParseErrorView::InvalidToken(word))
    }
}

/// The view of a result: that of the value, or that of the error.
pub open spec fn result_view<T: View, E: View>(r: Result<T, E>) -> Result<T::V, E::V> {
    match r {
        Ok(value) => Ok(value@),
        Err(error) => Err(error@),
    }
}

/// The view of an optional value.
pub open spec fn option_view<T: View>(o: Option<T>) -> Option<T::V> {
    match o {
        Some(value) => Some(value@),
        None => None,
    }
}

/// Decides [`is_control_char`].
pub fn char_is_control(c: char) -> (r: bool)
    ensures
        r == is_control_char(c),
{
    c == '=' || c == ';' || c == '(' || c == ')'
}

impl Token {
    /// Classifies a word given as characters: see [`word_token`].
    pub fn from_chars(word: &[char]) -> (r: Result<Token, TokenParseError>)
        ensures
            result_view(r) == word_token(word@),
    {
        let n: usize = word.len();
        if n == 3 && word[0] == 'l' && word[1] == 'e' && word[2] == 't' {
            assert(word@ == seq!['l', 'e', 't']);
            return Ok(Token::Let);
        }
        if n == 4 && word[0] == 'e' && word[1] == 'x' && word[2] == 'i' && word[3] == 't' {
            assert(word@ == seq!['e', 'x', 'i', 't']);
            return Ok(Token::Exit);
        }
        assert(word@ != seq!['l', 'e', 't']) by {
            if word@ == seq!['l', 'e', 't'] {
                assert(word@.len() == 3);
                assert(word@[0] == 'l' && word@[1] == 'e' && word@[2] == 't');
            }
        }
        assert(word@ != seq!['e', 'x', 'i', 't']) by {
            if word@ == seq!['e', 'x', 'i', 't'] {
                assert(word@.len() == 4);
                assert(word@[0] == 'e' && word@[1] == 'x' && word@[2] == 'i' && word@[3] == 't');
            }
        }
        if let Some(value) = read_i64(word) {
            return Ok(Token::I64Literal(value));
        }
        if n > 0 && char_is_ascii_alphabetic(word[0]) {
            return Ok(Token::Ident(chars_to_string(word)));
        }
        Err(TokenParseError::InvalidToken(chars_to_string(word)))
    }
}

impl TryFrom<char> for Token {
    type Error = TokenParseError;

    /// Classifies a single character: see [`char_token`].
    fn try_from(value: char) -> (r: Result<Token, TokenParseError>)
        ensures
            result_view(r) == char_token(value),
    {
        match value {
            '=' => Ok(Token::Eq),
            ';' => Ok(Token::Semi),
            '(' => Ok(Token::ParenOpen),
            ')' => Ok(Token::ParenClose),
            _ => Err(TokenParseError::InvalidControlChar(value)),
        }
    }
}

impl TryFromSpecImpl<char> for Token {
    open spec fn obeys_try_from_spec() -> bool {
        true
    }

    open spec fn try_from_spec(value: char) -> Result<Token, TokenParseError> {
        if value == '=' {
            Ok(Token::Eq)
        } else if value == ';' {
            Ok(Token::Semi)
        } else if value == '(' {
            Ok(Token::ParenOpen)
        } else if value == ')' {
            Ok(Token::ParenClose)
        } else {
            Err(TokenParseError::InvalidControlChar(value))
        }
    }
}

impl FromStr for Token {
    type Err = TokenParseError;

    /// Classifies a word: see [`word_token`].
    fn from_str(word: &str) -> (r: Result<Token, TokenParseError>)
        ensures
            result_view(r) == word_token(word@),
    {
        let chars = str_chars(word);
        Token::from_chars(chars.as_slice())
    }
}

} // verus!
