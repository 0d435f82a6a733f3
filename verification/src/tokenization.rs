//! The lexer: from a sequence of characters to a sequence of tokens, in one
//! forward pass with one character of lookahead; and the stream that hands
//! its tokens to the parser one at a time, up to the first word that is no
//! token or to the place where reading the input failed.

use vstd::prelude::*;
use vstd::std_specs::cmp::PartialEqSpecImpl;
use crate::chars::{char_is_whitespace, is_whitespace};
use crate::parser::{AstParserError, TokenIterator};
use crate::token::{
    char_is_control,
    char_token,
    is_control_char,
    option_view,
    result_view,
    token_views,
    word_token,
    Token,
    TokenParseError,
    TokenParseErrorView,
    TokenView,
};

verus! {

/// Whether `c` ends a word: whitespace does, and so does each character
/// that is a token by itself.
pub open spec fn is_delimiter(c: char) -> bool {
    is_whitespace(c) || is_control_char(c)
}

/// The number of whitespace characters at the start of `s`.
pub open spec fn leading_whitespace(s: Seq<char>) -> nat
    decreases s.len(),
{
    if s.len() > 0 && is_whitespace(s[0]) {
        1 + leading_whitespace(s.drop_first())
    } else {
        0
    }
}

/// The length of the word at the start of `s`: the characters up to the
/// first delimiter, or up to the end where there is none.
pub open spec fn word_len(s: Seq<char>) -> nat
    decreases s.len(),
{
    if s.len() > 0 && !is_delimiter(s[0]) {
        1 + word_len(s.drop_first())
    } else {
        0
    }
}

/// One step of the lexer on the text `s`: `None` where only whitespace is
/// left, else the next token or the error in its place, together with the
/// number of characters consumed. Each of `=`, `;`, `(`, `)` is a token by
/// itself; any other character starts a word, which runs up to the next
/// delimiter or to the end of the text.
pub open spec fn next_lexeme(s: Seq<char>) -> Option<
    (Result<TokenView, TokenParseErrorView>, nat),
> {
    let start = leading_whitespace(s);
    if start >= s.len() {
        None
    } else if is_control_char(s[start as int]) {
        Some((char_token(s[start as int]), start + 1))
    } else {
        let len = word_len(s.skip(start as int));
        Some((word_token(s.subrange(start as int, (start + len) as int)), start + len))
    }
}

/// The tokens of the text `s`, in order, or the first lexical error.
pub open spec fn lex(s: Seq<char>) -> Result<Seq<TokenView>, TokenParseErrorView>
    decreases s.len(),
    via lex_decreases
{
    match next_lexeme(s) {
        None => Ok(Seq::empty()),
        Some((Err(error), _)) => Err(error),
        Some((Ok(token), used)) => match lex(s.skip(used as int)) {
            Ok(rest) => Ok(seq![token] + rest),
            Err(error) => Err(error),
        },
    }
}

#[via_fn]
proof fn lex_decreases(s: Seq<char>) {
    lemma_next_lexeme_bounds(s);
}

/// Why a token stream ends short of the end of the input.
#[derive(Debug)]
pub enum StreamError {
    /// The input could not be read any further.
    InputFailed,
    /// The text holds a word that is no token.
    Token(TokenParseError),
}

/// What a [`StreamError`] stands for.
pub enum StreamErrorView {
    InputFailed,
    Token(TokenParseErrorView),
}

impl View for StreamError {
    type V = StreamErrorView;

    open spec fn view(&self) -> StreamErrorView {
        match self {
            StreamError::InputFailed => StreamErrorView::InputFailed,
            StreamError::Token(error) => StreamErrorView::Token(error@),
        }
    }
}

impl PartialEq for StreamError {
    fn eq(&self, other: &Self) -> (r: bool) {
        match self {
            StreamError::InputFailed => match other {
                StreamError::InputFailed => true,
                _ => false,
            },
            StreamError::Token(a) => match other {
                StreamError::Token(b) => *a == *b,
                _ => false,
            },
        }
    }
}

impl PartialEqSpecImpl for StreamError {
    open spec fn obeys_eq_spec() -> bool {
        true
    }

    open spec fn eq_spec(&self, other: &Self) -> bool {
        self@ == other@
    }
}

/// Whether the first lexeme of `s` is a word that runs to the end of `s`.
/// Where `s` is what could be read of an input that then failed, the end
/// of such a word was never seen.
pub open spec fn word_unfinished(s: Seq<char>) -> bool {
    let start = leading_whitespace(s);
    &&& start < s.len()
    &&& !is_control_char(s[start as int])
    &&& start + word_len(s.skip(start as int)) == s.len()
}

/// The tokens that a stream over the text `s` hands out, one for each
/// lexeme in front of the place where it ends. Where `cut_short` holds,
/// `s` is what could be read of an input whose reading then failed: the
/// stream ends with it, and in front of a word that runs to its end,
/// which is not classified. Else `s` is the whole input. Either way the
/// stream ends in front of the first word that is no token.
pub open spec fn stream_tokens(s: Seq<char>, cut_short: bool) -> Seq<TokenView>
    decreases s.len(),
    via stream_tokens_decreases
{
    match next_lexeme(s) {
        Some((Ok(token), used)) => if cut_short && word_unfinished(s) {
            Seq::empty()
        } else {
            seq![token] + stream_tokens(s.skip(used as int), cut_short)
        },
        _ => Seq::empty(),
    }
}

#[via_fn]
proof fn stream_tokens_decreases(s: Seq<char>, cut_short: bool) {
    lemma_next_lexeme_bounds(s);
}

/// The error with which a stream over the text `s` ends, if it ends with
/// one: see [`stream_tokens`]. A whole input that has no lexical error
/// ends with none.
pub open spec fn stream_ending(s: Seq<char>, cut_short: bool) -> Option<StreamErrorView>
    decreases s.len(),
    via stream_ending_decreases
{
    match next_lexeme(s) {
        None => if cut_short {
            Some(StreamErrorView::InputFailed)
        } else {
            None
        },
        Some((result, used)) => if cut_short && word_unfinished(s) {
            Some(StreamErrorView::InputFailed)
        } else {
            match result {
                Err(error) => Some(StreamErrorView::Token(error)),
                Ok(_) => stream_ending(s.skip(used as int), cut_short),
            }
        },
    }
}

#[via_fn]
proof fn stream_ending_decreases(s: Seq<char>, cut_short: bool) {
    lemma_next_lexeme_bounds(s);
}

/// A stream over a whole input hands out the tokens of the text and ends
/// with none, or ends with the first lexical error of the text.
pub proof fn lemma_stream_of_whole_input(s: Seq<char>)
    ensures
        match lex(s) {
            Ok(tokens) => stream_tokens(s, false) == tokens && stream_ending(s, false) is None,
            Err(error) => stream_ending(s, false) == Some(StreamErrorView::Token(error)),
        },
    decreases s.len(),
{
    lemma_next_lexeme_bounds(s);
    match next_lexeme(s) {
        Some((Ok(_), used)) => {
            lemma_stream_of_whole_input(s.skip(used as int));
        },
        _ => {},
    }
}

/// Leading whitespace never runs past the end of the text, and what
/// follows it is no whitespace.
pub proof fn lemma_leading_whitespace(s: Seq<char>)
    ensures
        leading_whitespace(s) <= s.len(),
        forall|i: int| 0 <= i < leading_whitespace(s) ==> is_whitespace(#[trigger] s[i]),
        leading_whitespace(s) < s.len() ==> !is_whitespace(s[leading_whitespace(s) as int]),
    decreases s.len(),
{
    if s.len() > 0 && is_whitespace(s[0]) {
        let t = s.drop_first();
        lemma_leading_whitespace(t);
        assert forall|i: int| 0 <= i < leading_whitespace(s) implies is_whitespace(
            #[trigger] s[i],
        ) by {
            if i > 0 {
                assert(s[i] == t[i - 1]);
            }
        }
        if leading_whitespace(s) < s.len() {
            assert(s[leading_whitespace(s) as int] == t[leading_whitespace(t) as int]);
        }
    }
}

/// A word never runs past the end of the text, holds no delimiter, and is
/// followed by a delimiter or by the end.
pub proof fn lemma_word_len(s: Seq<char>)
    ensures
        word_len(s) <= s.len(),
        forall|i: int| 0 <= i < word_len(s) ==> !is_delimiter(#[trigger] s[i]),
        word_len(s) < s.len() ==> is_delimiter(s[word_len(s) as int]),
    decreases s.len(),
{
    if s.len() > 0 && !is_delimiter(s[0]) {
        let t = s.drop_first();
        lemma_word_len(t);
        assert forall|i: int| 0 <= i < word_len(s) implies !is_delimiter(#[trigger] s[i]) by {
            if i > 0 {
                assert(s[i] == t[i - 1]);
            }
        }
        if word_len(s) < s.len() {
            assert(s[word_len(s) as int] == t[word_len(t) as int]);
        }
    }
}

/// A step of the lexer consumes at least one character and no more than
/// there are.
pub proof fn lemma_next_lexeme_bounds(s: Seq<char>)
    ensures
        match next_lexeme(s) {
            Some((_, used)) => 0 < used <= s.len(),
            None => true,
        },
{
    lemma_leading_whitespace(s);
    let start = leading_whitespace(s);
    if start < s.len() && !is_control_char(s[start as int]) {
        let t = s.skip(start as int);
        lemma_word_len(t);
        assert(t[0] == s[start as int]);
        assert(!is_delimiter(t[0]));
    }
}

/// Whitespace that stops at `k` is all the leading whitespace there is.
proof fn lemma_leading_whitespace_is(s: Seq<char>, k: int)
    requires
        0 <= k <= s.len(),
        forall|i: int| 0 <= i < k ==> is_whitespace(#[trigger] s[i]),
        k < s.len() ==> !is_whitespace(s[k]),
    ensures
        leading_whitespace(s) == k,
    decreases s.len(),
{
    if k > 0 {
        let t = s.drop_first();
        assert(is_whitespace(s[0]));
        assert forall|i: int| 0 <= i < k - 1 implies is_whitespace(#[trigger] t[i]) by {
            assert(t[i] == s[i + 1]);
        }
        lemma_leading_whitespace_is(t, k - 1);
    }
}

/// A run without delimiters that stops at `k` is the whole word.
proof fn lemma_word_len_is(s: Seq<char>, k: int)
    requires
        0 <= k <= s.len(),
        forall|i: int| 0 <= i < k ==> !is_delimiter(#[trigger] s[i]),
        k < s.len() ==> is_delimiter(s[k]),
    ensures
        word_len(s) == k,
    decreases s.len(),
{
    if k > 0 {
        let t = s.drop_first();
        assert(!is_delimiter(s[0]));
        assert forall|i: int| 0 <= i < k - 1 implies !is_delimiter(#[trigger] t[i]) by {
            assert(t[i] == s[i + 1]);
        }
        lemma_word_len_is(t, k - 1);
    }
}

/// Whether every character of `s` is whitespace.
pub open spec fn all_whitespace(s: Seq<char>) -> bool {
    forall|i: int| 0 <= i < s.len() ==> is_whitespace(#[trigger] s[i])
}

/// The tokens of one text followed by those of another, or the first
/// error of the two.
pub open spec fn lex_then(
    first: Result<Seq<TokenView>, TokenParseErrorView>,
    second: Result<Seq<TokenView>, TokenParseErrorView>,
) -> Result<Seq<TokenView>, TokenParseErrorView> {
    match first {
        Err(error) => Err(error),
        Ok(tokens) => match second {
            Err(error) => Err(error),
            Ok(more) => Ok(tokens + more),
        },
    }
}

/// Whitespace at the start of a text changes no token.
pub proof fn lemma_lex_skips_whitespace(space: Seq<char>, text: Seq<char>)
    requires
        all_whitespace(space),
    ensures
        lex(space + text) == lex(text),
{
    let whole = space + text;
    let gap = space.len() as int;
    let start = leading_whitespace(text) as int;
    lemma_leading_whitespace(text);
    assert(leading_whitespace(whole) == gap + start) by {
        assert forall|i: int| 0 <= i < gap + start implies is_whitespace(#[trigger] whole[i]) by {
            if i >= gap {
                assert(whole[i] == text[i - gap]);
            }
        }
        if gap + start < whole.len() {
            assert(whole[gap + start] == text[start]);
        }
        lemma_leading_whitespace_is(whole, gap + start);
    }
    if start < text.len() {
        assert(whole[gap + start] == text[start]);
        assert(whole.skip(gap + start) == text.skip(start));
        let len = word_len(text.skip(start)) as int;
        lemma_word_len(text.skip(start));
        assert(whole.subrange(gap + start, gap + start + len) == text.subrange(
            start,
            start + len,
        ));
        lemma_next_lexeme_bounds(text);
        match next_lexeme(text) {
            Some((_, used)) => {
                assert(whole.skip(gap + used) == text.skip(used as int));
            },
            None => {},
        }
    }
}

/// A text that is cut in front of a delimiter, or at its end, has the
/// tokens of its first part followed by those of its second part.
pub proof fn lemma_lex_split(first: Seq<char>, second: Seq<char>)
    requires
        second.len() > 0 ==> is_delimiter(second[0]),
    ensures
        lex(first + second) == lex_then(lex(first), lex(second)),
    decreases first.len(),
{
    let whole = first + second;
    let start = leading_whitespace(first) as int;
    lemma_leading_whitespace(first);
    lemma_next_lexeme_bounds(first);
    if start >= first.len() {
        lemma_lex_skips_whitespace(first, second);
        if let Ok(tokens) = lex(second) {
            assert(Seq::<TokenView>::empty() + tokens == tokens);
        }
    } else {
        assert(leading_whitespace(whole) == start) by {
            assert forall|i: int| 0 <= i < start implies is_whitespace(#[trigger] whole[i]) by {
                assert(whole[i] == first[i]);
            }
            assert(whole[start] == first[start]);
            lemma_leading_whitespace_is(whole, start);
        }
        assert(whole[start] == first[start]);
        if !is_control_char(first[start]) {
            let word = first.skip(start);
            let len = word_len(word) as int;
            lemma_word_len(word);
            assert(word_len(whole.skip(start)) == len) by {
                let longer = whole.skip(start);
                assert forall|i: int| 0 <= i < len implies !is_delimiter(
                    #[trigger] longer[i],
                ) by {
                    assert(longer[i] == word[i]);
                }
                if len < longer.len() {
                    if len < word.len() {
                        assert(longer[len] == word[len]);
                    } else {
                        assert(longer[len] == second[0]);
                    }
                }
                lemma_word_len_is(longer, len);
            }
            assert(whole.subrange(start, start + len) == first.subrange(start, start + len));
        }
        match next_lexeme(first) {
            Some((Ok(token), used)) => {
                assert(next_lexeme(whole) == Some(
                    (Ok::<TokenView, TokenParseErrorView>(token), used),
                ));
                assert(whole.skip(used as int) == first.skip(used as int) + second);
                lemma_lex_split(first.skip(used as int), second);
                if let Ok(tokens) = lex(first.skip(used as int)) {
                    if let Ok(more) = lex(second) {
                        assert(seq![token] + (tokens + more) == seq![token] + tokens + more);
                    }
                }
            },
            Some((Err(error), used)) => {
                assert(next_lexeme(whole) == Some(
                    (Err::<TokenView, TokenParseErrorView>(error), used),
                ));
            },
            None => {},
        }
    }
}

/// A word alone is one token, or the error of that word.
pub proof fn lemma_lex_word(word: Seq<char>)
    requires
        word.len() > 0,
        forall|i: int| 0 <= i < word.len() ==> !is_delimiter(#[trigger] word[i]),
    ensures
        lex(word) == match word_token(word) {
            Ok(token) => Ok::<Seq<TokenView>, TokenParseErrorView>(seq![token]),
            Err(error) => Err(error),
        },
{
    assert(!is_delimiter(word[0]));
    assert(leading_whitespace(word) == 0);
    assert(word.skip(0) == word);
    lemma_word_len_is(word, word.len() as int);
    assert(word.subrange(0, word.len() as int) == word);
    assert(word.skip(word.len() as int) == Seq::<char>::empty());
    assert(lex(Seq::<char>::empty()) == Ok::<Seq<TokenView>, TokenParseErrorView>(Seq::empty()));
    if let Ok(token) = word_token(word) {
        assert(seq![token] + Seq::<TokenView>::empty() == seq![token]);
    }
}

/// A control character at the start of a text is the first token.
pub proof fn lemma_lex_control_char(c: char, text: Seq<char>)
    requires
        is_control_char(c),
    ensures
        lex(seq![c] + text) == lex_then(Ok(seq![char_token(c)->Ok_0]), lex(text)),
{
    let whole = seq![c] + text;
    assert(leading_whitespace(whole) == 0);
    assert(whole[0] == c);
    assert(whole.skip(1) == text);
}

/// Whitespace before and after a control character changes no token: the
/// text lexes as it does with the character alone in that place.
pub proof fn lemma_whitespace_around_control_char(
    before: Seq<char>,
    space_before: Seq<char>,
    c: char,
    space_after: Seq<char>,
    after: Seq<char>,
)
    requires
        is_control_char(c),
        all_whitespace(space_before),
        all_whitespace(space_after),
    ensures
        lex(before + space_before + seq![c] + space_after + after) == lex(
            before + seq![c] + after,
        ),
{
    let tight = seq![c] + after;
    let loose = space_before + (seq![c] + (space_after + after));
    assert(before + space_before + seq![c] + space_after + after == before + loose);
    assert(before + seq![c] + after == before + tight);
    assert(tight[0] == c);
    if space_before.len() > 0 {
        assert(loose[0] == space_before[0]);
    } else {
        assert(loose[0] == c);
    }
    lemma_lex_split(before, tight);
    lemma_lex_split(before, loose);
    lemma_lex_skips_whitespace(space_before, seq![c] + (space_after + after));
    lemma_lex_control_char(c, space_after + after);
    lemma_lex_control_char(c, after);
    lemma_lex_skips_whitespace(space_after, after);
}

/// A lexer over a text held in memory. It hands out one token per call and
/// only ever moves forward.
pub struct Tokenizer {
    chars: Vec<char>,
    pos: usize,
}

impl View for Tokenizer {
    type V = Seq<char>;

    /// The text that is still to be read.
    closed spec fn view(&self) -> Seq<char> {
        self.chars@.skip(self.pos as int)
    }
}

impl Tokenizer {
    #[verifier::type_invariant]
    spec fn in_bounds(self) -> bool {
        self.pos <= self.chars.len()
    }

    /// A lexer at the start of `chars`.
    pub fn new(chars: Vec<char>) -> (r: Tokenizer)
        ensures
            r@ == chars@,
    {
        Tokenizer { chars, pos: 0 }
    }

    /// Whether the whole text has been read.
    pub fn at_end(&self) -> (r: bool)
        ensures
            r == (self@.len() == 0),
    {
        proof {
            use_type_invariant(self);
        }
        self.pos >= self.chars.len()
    }

    /// The next token of the text, or the lexical error in its place, or
    /// `None` where only whitespace is left. The lexer moves past what it
    /// has read, a rejected character or word included.
    pub fn next_token(&mut self) -> (r: Option<Result<Token, TokenParseError>>)
        ensures
            match next_lexeme(old(self)@) {
                None => r is None && final(self)@ == Seq::<char>::empty(),
                Some((expected, used)) => {
                    &&& r is Some
                    &&& result_view(r->0) == expected
                    &&& final(self)@ == old(self)@.skip(used as int)
                },
            },
    {
        proof {
            use_type_invariant(&*self);
        }
        let ghost text = self@;
        let begin: usize = self.pos;
        let n: usize = self.chars.len();
        let mut i: usize = begin;
        while i < n && char_is_whitespace(self.chars[i])
            invariant
                begin <= i <= n,
                n == self.chars.len(),
                begin == self.pos,
                text == self.chars@.skip(begin as int),
                forall|k: int| 0 <= k < i - begin ==> is_whitespace(#[trigger] text[k]),
            decreases n - i,
        {
            i += 1;
        }
        proof {
            lemma_leading_whitespace_is(text, i - begin);
        }
        if i >= n {
            self.pos = n;
            return None;
        }
        let c: char = self.chars[i];
        if char_is_control(c) {
            self.pos = i + 1;
            proof {
                assert(self.chars@.skip(i + 1) == text.skip(i + 1 - begin));
            }
            return Some(Token::try_from(c));
        }
        let mut j: usize = i + 1;
        while j < n && !(char_is_whitespace(self.chars[j]) || char_is_control(self.chars[j]))
            invariant
                begin <= i < j <= n,
                n == self.chars.len(),
                begin == self.pos,
                text == self.chars@.skip(begin as int),
                forall|k: int| 0 <= k < j - i ==> !is_delimiter(#[trigger] text.skip(i - begin)[k]),
            decreases n - j,
        {
            j += 1;
        }
        proof {
            lemma_word_len_is(text.skip(i - begin), j - i);
            assert(text.subrange(i - begin, j - begin) == self.chars@.subrange(i as int, j as int));
            assert(self.chars@.skip(j as int) == text.skip(j - begin));
        }
        let token = Token::from_chars(vstd::slice::slice_subrange(self.chars.as_slice(), i, j));
        self.pos = j;
        Some(token)
    }
}

/// Where a [`Tokens`] stream stands with regard to its end.
enum Progress {
    /// No token was asked for in vain yet.
    Open,
    /// The input has been read to its end.
    Finished,
    /// The stream has ended with an error.
    Failed(StreamError),
}

/// The tokens of a text as a stream with one token of lookahead. Each
/// token is lexed when it is first asked for. The stream ends at the end
/// of the text or in front of the first word that is no token, whichever
/// comes first, and reads no further. Where the text is what could be read
/// of an input that then failed, its end is the failure of the input, and
/// a word that runs up to it is not classified, for want of the character
/// behind it.
pub struct Tokens {
    lexer: Tokenizer,
    cut_short: bool,
    peeked: Option<Token>,
    progress: Progress,
}

impl Tokens {
    /// The tokens of the text that `lexer` has still to read, which is the
    /// whole of the input.
    pub fn new(lexer: Tokenizer) -> (r: Tokens)
        ensures
            r.remaining() == stream_tokens(lexer@, false),
            r.ending() == stream_ending(lexer@, false),
            !r.ran_out(),
    {
        let r = Tokens { lexer, cut_short: false, peeked: None, progress: Progress::Open };
        assert(Seq::<TokenView>::empty() + stream_tokens(lexer@, false) == stream_tokens(
            lexer@,
            false,
        ));
        r
    }

    /// The tokens of the text that `lexer` has still to read, which is
    /// what could be read of an input before reading it failed. The stream
    /// ends with [`StreamError::InputFailed`] where the text is used up.
    pub fn cut_short(lexer: Tokenizer) -> (r: Tokens)
        ensures
            r.remaining() == stream_tokens(lexer@, true),
            r.ending() == stream_ending(lexer@, true),
            !r.ran_out(),
    {
        let r = Tokens { lexer, cut_short: true, peeked: None, progress: Progress::Open };
        assert(Seq::<TokenView>::empty() + stream_tokens(lexer@, true) == stream_tokens(
            lexer@,
            true,
        ));
        r
    }

    /// The error with which this stream has ended, once a token has been
    /// asked for in vain; `None` before that, and where the stream has
    /// ended at the end of a whole input.
    pub fn failure(self) -> (r: Option<StreamError>)
        ensures
            self.ran_out() ==> option_view(r) == self.ending(),
            !self.ran_out() ==> r is None,
    {
        match self.progress {
            Progress::Failed(error) => Some(error),
            _ => None,
        }
    }

    /// The tokens that were looked at and not taken.
    spec fn held(self) -> Seq<TokenView> {
        match self.peeked {
            Some(token) => seq![token@],
            None => Seq::empty(),
        }
    }

    /// Lexes the next token into the lookahead where it is empty and the
    /// end has not been met.
    fn fill(&mut self)
        ensures
            final(self).remaining() == old(self).remaining(),
            final(self).ending() == old(self).ending(),
            final(self).ran_out() == (old(self).ran_out() || old(self).remaining().len() == 0),
            final(self).progress is Open ==> final(self).peeked is Some,
    {
        if let Progress::Open = self.progress {
            if self.peeked.is_none() {
                let ghost text = self.lexer@;
                let cut_short = self.cut_short;
                proof {
                    lemma_next_lexeme_bounds(text);
                    lemma_leading_whitespace(text);
                    assert(Seq::<TokenView>::empty() + stream_tokens(text, cut_short)
                        == stream_tokens(text, cut_short));
                }
                match self.lexer.next_token() {
                    None => {
                        if cut_short {
                            self.progress = Progress::Failed(StreamError::InputFailed);
                        } else {
                            self.progress = Progress::Finished;
                        }
                    },
                    Some(lexeme) => {
                        let alone = match &lexeme {
                            Ok(token) => stands_alone(token),
                            Err(_) => false,
                        };
                        proof {
                            let start = leading_whitespace(text) as int;
                            assert(alone == is_control_char(text[start]));
                        }
                        if cut_short && !alone && self.lexer.at_end() {
                            self.progress = Progress::Failed(StreamError::InputFailed);
                        } else {
                            match lexeme {
                                Ok(token) => {
                                    self.peeked = Some(token);
                                },
                                Err(error) => {
                                    self.progress = Progress::Failed(StreamError::Token(error));
                                },
                            }
                        }
                    },
                }
            }
        }
    }
}

/// Whether `token` is one of the tokens that a single character stands
/// for, which need no lookahead.
fn stands_alone(token: &Token) -> (r: bool)
    ensures
        r == (token@ is Eq || token@ is Semi || token@ is ParenOpen || token@ is ParenClose),
{
    match token {
        Token::Eq | Token::Semi | Token::ParenOpen | Token::ParenClose => true,
        _ => false,
    }
}

impl TokenIterator for Tokens {
    closed spec fn remaining(&self) -> Seq<TokenView> {
        match self.progress {
            Progress::Open => self.held() + stream_tokens(self.lexer@, self.cut_short),
            _ => Seq::empty(),
        }
    }

    closed spec fn ran_out(&self) -> bool {
        !(self.progress is Open)
    }

    closed spec fn ending(&self) -> Option<StreamErrorView> {
        match self.progress {
            Progress::Open => stream_ending(self.lexer@, self.cut_short),
            Progress::Finished => None,
            Progress::Failed(error) => Some(error@),
        }
    }

    fn next_token(&mut self) -> (r: Result<Token, AstParserError>) {
        self.fill();
        match self.peeked.take() {
            Some(token) => {
                if let Progress::Open = self.progress {
                    proof {
                        let rest = stream_tokens(self.lexer@, self.cut_short);
                        assert((seq![token@] + rest).drop_first() == Seq::<TokenView>::empty()
                            + rest);
                    }
                    Ok(token)
                } else {
                    Err(AstParserError::TokenIsNone)
                }
            },
            None => Err(AstParserError::TokenIsNone),
        }
    }

    fn peek_token(&mut self) -> (r: Result<&Token, AstParserError>) {
        self.fill();
        if let Progress::Open = self.progress {
            match &self.peeked {
                Some(token) => Ok(token),
                None => Err(AstParserError::TokenIsNone),
            }
        } else {
            Err(AstParserError::TokenIsNone)
        }
    }

    fn expect_token(&mut self, token: Token) -> (r: Result<Token, AstParserError>) {
        let token_received = self.next_token()?;
        if token.kind() == token_received.kind() {
            Ok(token_received)
        } else {
            Err(AstParserError::ExpectedToken(token))
        }
    }
}

/// All the tokens of `chars`, in order, or the first lexical error: see
/// [`lex`].
pub fn tokenize(chars: Vec<char>) -> (r: Result<Vec<Token>, TokenParseError>)
    ensures
        match lex(chars@) {
            Ok(tokens) => r is Ok && token_views(r->Ok_0@) == tokens,
            Err(error) => r is Err && r->Err_0@ == error,
        },
{
    let ghost text = chars@;
    let mut lexer = Tokenizer::new(chars);
    let mut tokens: Vec<Token> = Vec::new();
    loop
        invariant
            text == chars@,
            match lex(lexer@) {
                Ok(rest) => lex(text) == Ok::<Seq<TokenView>, TokenParseErrorView>(
                    token_views(tokens@) + rest,
                ),
                Err(error) => lex(text) == Err::<Seq<TokenView>, TokenParseErrorView>(error),
            },
        decreases lexer@.len(),
    {
        let ghost before = lexer@;
        proof {
            lemma_next_lexeme_bounds(before);
        }
        match lexer.next_token() {
            None => {
                proof {
                    assert(token_views(tokens@) + Seq::<TokenView>::empty() == token_views(
                        tokens@,
                    ));
                }
                return Ok(tokens);
            },
            Some(Err(error)) => {
                return Err(error);
            },
            Some(Ok(token)) => {
                let ghost earlier = token_views(tokens@);
                tokens.push(token);
                proof {
                    assert(token_views(tokens@) == earlier.push(token@));
                    if let Ok(rest) = lex(lexer@) {
                        assert(earlier.push(token@) + rest == earlier + (seq![token@] + rest));
                    }
                }
            },
        }
    }
}

} // verus!
