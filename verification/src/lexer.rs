//! The lexer: turns the bytes of a Tero document into a stream of tokens,
//! one token of look-ahead at a time.
use vstd::prelude::*;
use vstd::utf8::*;
use vstd::string::StringSliceAdditionalSpecFns;
use crate::source::{
    Src,
    Span,
    SpanView,
    Location,
    ScalarStep,
    lemma_span_of_view,
    lemma_span_from_view,
    lemma_location_at,
    lemma_location_of_view,
    lemma_src_wf,
};
use crate::token::{Token, LexError, FloatLiteral, FloatKind};
use crate::utf8_facts::lemma_end_boundary;
use crate::grammar::{
    is_blank,
    is_version_space,
    is_digit,
    is_number_char,
    is_ident_start,
    is_ident_char,
    newline,
    hash,
    backslash,
    line_end,
    skip_trim,
    skip_version_space,
    skip_blank,
    number_end,
    ident_end,
    digits_value,
    lemma_line_end_bounds,
    lemma_skip_trim_bounds,
    lemma_skip_version_space_bounds,
    lemma_skip_blank_bounds,
    lemma_number_end_bounds,
    lemma_ident_end_bounds,
    lemma_digits_value_monotone,
    lemma_digits_value_nonneg,
    lemma_after_ascii,
    lemma_at_ascii_or_end,
    lemma_skip_blank_boundary,
};

verus! {

broadcast use {
    lemma_span_of_view,
    lemma_span_from_view,
    lemma_location_at,
    lemma_location_of_view,
    lemma_src_wf,
    encode_utf8_valid_utf8,
};

/// The span from `start` to `end` found on `line`.
pub open spec fn span_of(start: int, end: int, line: int) -> Span {
    Span::from_view(SpanView { start: start as u32, end: end as u32, line: line as u32 })
}

/// What lexing one token yields: the token (`None` at the end of the
/// input), the position after it, and the line count after it.
pub struct LexOutcome {
    pub token: Option<Result<Token, LexError>>,
    pub pos: int,
    pub line: int,
}

/// The character that starts at offset `p` of `s`.
pub open spec fn char_at(s: Seq<u8>, p: int) -> char {
    decode_utf8(s.subrange(p, s.len() as int))[0]
}

/// The bytes of `true`.
pub open spec fn word_true() -> Seq<u8> {
    seq![0x74u8, 0x72, 0x75, 0x65]
}

/// The bytes of `false`.
pub open spec fn word_false() -> Seq<u8> {
    seq![0x66u8, 0x61, 0x6c, 0x73, 0x65]
}

/// The bytes of `NaN`.
pub open spec fn word_nan() -> Seq<u8> {
    seq![0x4eu8, 0x61, 0x4e]
}

/// The bytes of `Infinity`.
pub open spec fn word_infinity() -> Seq<u8> {
    seq![0x49u8, 0x6e, 0x66, 0x69, 0x6e, 0x69, 0x74, 0x79]
}

/// The bytes of `nil`.
pub open spec fn word_nil() -> Seq<u8> {
    seq![0x6eu8, 0x69, 0x6c]
}

/// The bytes of the version keyword `Tero`.
pub open spec fn word_tero() -> Seq<u8> {
    seq![0x54u8, 0x65, 0x72, 0x6f]
}

/// The token that a key-shaped word stands for: a keyword's value, or the
/// key itself.
pub open spec fn word_token(word: Seq<u8>, span: Span) -> Token {
    if word == word_true() {
        Token::Boolean(true)
    } else if word == word_false() {
        Token::Boolean(false)
    } else if word == word_nan() {
        Token::Float(FloatLiteral { negative: false, kind: FloatKind::NaN })
    } else if word == word_infinity() {
        Token::Float(FloatLiteral { negative: false, kind: FloatKind::Infinity })
    } else if word == word_nil() {
        Token::Nil
    } else {
        Token::Identifier(span)
    }
}

/// How the text of a string literal ends.
pub enum StringEnd {
    /// At the closing quote at this offset; `escaped` tells whether a `\`
    /// occurred in the text.
    Closed { quote: int, escaped: bool },
    /// Before any closing quote, with this error.
    Failed { error: LexError },
}

/// Scans the text of a string literal quoted by `q` from offset `i`: a `\`
/// escapes the byte after it, and a line break or the end of the input
/// before the closing quote leaves the string unterminated (a `\` as the
/// very last byte is an unexpected end of input).
pub open spec fn scan_string(s: Seq<u8>, i: int, q: u8, escaped: bool) -> StringEnd
    decreases s.len() - i,
{
    if i < 0 || i >= s.len() {
        StringEnd::Failed { error: LexError::UnterminatedString }
    } else if s[i] == newline() {
        StringEnd::Failed { error: LexError::UnterminatedString }
    } else if s[i] == backslash() {
        if i + 1 >= s.len() {
            StringEnd::Failed { error: LexError::UnexpectedEOF }
        } else if s[i + 1] == newline() {
            StringEnd::Failed { error: LexError::UnterminatedString }
        } else {
            scan_string(s, i + 2, q, true)
        }
    } else if s[i] == q {
        StringEnd::Closed { quote: i, escaped }
    } else {
        scan_string(s, i + 1, q, escaped)
    }
}

/// The number literal that starts with the digit at `p`: an integer, or a
/// float when a point followed by something other than a second point
/// comes after the digits. A value above `i64::MAX` is an overflow.
pub open spec fn lex_number(s: Seq<u8>, p: int, line: int) -> LexOutcome {
    let e = number_end(s, p + 1);
    let v = digits_value(s, p, e);
    if v > i64::MAX {
        LexOutcome { token: Some(Err(LexError::NumericOverflow)), pos: p, line }
    } else if e + 2 <= s.len() && s[e] == 0x2e && s[e + 1] != 0x2e {
        let f = number_end(s, e + 1);
        LexOutcome {
            token: Some(
                Ok(
                    Token::Float(
                        FloatLiteral {
                            negative: false,
                            kind: FloatKind::Decimal { integer: v as i64, fraction: span_of(e + 1, f, line) },
                        },
                    ),
                ),
            ),
            pos: f,
            line,
        }
    } else {
        LexOutcome { token: Some(Ok(Token::Int(v as i64))), pos: e, line }
    }
}

/// The string literal whose opening quote is at `p`.
pub open spec fn lex_string(s: Seq<u8>, p: int, line: int) -> LexOutcome {
    match scan_string(s, p + 1, s[p], false) {
        StringEnd::Closed { quote, escaped } => LexOutcome {
            token: Some(
                Ok(
                    if escaped {
                        Token::Text(span_of(p + 1, quote, line))
                    } else {
                        Token::RawText(span_of(p + 1, quote, line))
                    },
                ),
            ),
            pos: quote + 1,
            line,
        },
        StringEnd::Failed { error } => LexOutcome { token: Some(Err(error)), pos: p, line },
    }
}

/// The key or keyword that starts at `p`.
pub open spec fn lex_word(s: Seq<u8>, p: int, line: int) -> LexOutcome {
    let e = ident_end(s, p + 1);
    LexOutcome {
        token: Some(Ok(word_token(s.subrange(p, e), span_of(p, e, line)))),
        pos: e,
        line,
    }
}

/// The token of one byte at `p`.
pub open spec fn single_byte_token(b: u8) -> Option<Token> {
    if b == 0x2d {
        Some(Token::Sub)
    } else if b == 0x2c {
        Some(Token::Comma)
    } else if b == 0x3a {
        Some(Token::Colon)
    } else if b == 0x7b {
        Some(Token::LeftBrace)
    } else if b == 0x7d {
        Some(Token::RightBrace)
    } else if b == 0x5b {
        Some(Token::LeftBracket)
    } else if b == 0x5d {
        Some(Token::RightBracket)
    } else {
        None
    }
}

/// The token that starts at `p`, which is the first position of a token.
pub open spec fn lex_token_at(s: Seq<u8>, p: int, line: int) -> LexOutcome {
    let c = s[p];
    if c == newline() {
        LexOutcome { token: Some(Ok(Token::Newline)), pos: p + 1, line: line + 1 }
    } else if is_digit(c) {
        lex_number(s, p, line)
    } else if single_byte_token(c) is Some {
        LexOutcome { token: Some(Ok(single_byte_token(c)->0)), pos: p + 1, line }
    } else if c == 0x27 || c == 0x22 {
        lex_string(s, p, line)
    } else if is_ident_start(c) {
        lex_word(s, p, line)
    } else {
        LexOutcome { token: Some(Err(LexError::InvalidCharacter(char_at(s, p)))), pos: p, line }
    }
}

/// The next token after offset `pos`, where `line` lines have been seen:
/// blanks and comments are skipped first, and the end of the input gives
/// `None`. After an error the position is the start of the bad token.
pub open spec fn lex_next(s: Seq<u8>, pos: int, line: int) -> LexOutcome {
    let p = skip_blank(s, pos);
    if p >= s.len() {
        LexOutcome { token: None, pos: p, line }
    } else {
        lex_token_at(s, p, line)
    }
}

/// Where lexing starts after the optional version line: `Tero` followed by
/// the version `0` skips its line, any other version is refused, and
/// `Tero` not followed by a version is read again as a key.
pub open spec fn after_version(s: Seq<u8>) -> Result<int, LexError> {
    let p = skip_trim(s, 0);
    if p + 4 <= s.len() && s.subrange(p, p + 4) == word_tero() {
        let q = skip_version_space(s, p + 4);
        if q < s.len() && s[q] == 0x30 {
            Ok(line_end(s, q))
        } else if q < s.len() && is_digit(s[q]) {
            Err(LexError::InvalidVersion)
        } else {
            Ok(0)
        }
    } else {
        Ok(p)
    }
}

/// The position after the version line lies in the input on a character
/// boundary.
pub proof fn lemma_after_version(s: Seq<u8>)
    requires
        valid_utf8(s),
    ensures
        after_version(s) matches Ok(p) ==> 0 <= p <= s.len() && is_char_boundary(s, p),
{
    let p = skip_trim(s, 0);
    lemma_skip_trim_bounds(s, 0);
    lemma_end_boundary(s);
    if p > 0 {
        lemma_after_ascii(s, p);
    }
    if p + 4 <= s.len() && s.subrange(p, p + 4) == word_tero() {
        let q = skip_version_space(s, p + 4);
        lemma_skip_version_space_bounds(s, p + 4);
        if q < s.len() && s[q] == 0x30 {
            lemma_line_end_bounds(s, q);
            lemma_at_ascii_or_end(s, line_end(s, q));
        }
    }
}

/// The observable state of a lexer.
pub struct LexerState {
    /// The read position in the input.
    pub pos: int,
    /// The token that `next` hands out next.
    pub peeked: Option<Result<Token, LexError>>,
    /// The position after the token handed out last.
    pub end_token: Location,
    /// The position after the token handed out before it.
    pub prev_token: Location,
    /// The line count after the peeked token.
    pub nline: u32,
    /// The line count after the token handed out last.
    pub line: u32,
}

/// The state of a fresh lexer over `s`, or the error that refuses it.
pub open spec fn start_state(s: Seq<u8>) -> Result<LexerState, LexError> {
    match after_version(s) {
        Err(e) => Err(e),
        Ok(p) => {
            let o = lex_next(s, p, 1);
            Ok(
                LexerState {
                    pos: o.pos,
                    peeked: o.token,
                    end_token: Location::at(0),
                    prev_token: Location::at(0),
                    nline: o.line as u32,
                    line: 1,
                },
            )
        },
    }
}

/// One call of `next`: the peeked token is handed out and the following one
/// is read. A peeked error is handed out again and again, with nothing
/// changed.
pub open spec fn next_step(s: Seq<u8>, st: LexerState) -> (Option<Result<Token, LexError>>, LexerState) {
    if st.peeked matches Some(Err(_)) {
        (st.peeked, st)
    } else {
        let o = lex_next(s, st.pos, st.nline as int);
        (
            st.peeked,
            LexerState {
                pos: o.pos,
                peeked: o.token,
                end_token: Location::at(st.pos as u32),
                prev_token: st.end_token,
                nline: o.line as u32,
                line: st.nline,
            },
        )
    }
}

/// A measure that every call of `next` that hands out a token lowers.
pub open spec fn progress(s: Seq<u8>, st: LexerState) -> int {
    2 * (s.len() - st.pos) + if st.peeked matches Some(Ok(_)) {
        1int
    } else {
        0int
    }
}

/// The spans a token carries lie inside `s` on character boundaries.
pub open spec fn token_in(t: Token, s: Seq<u8>) -> bool {
    match t {
        Token::Int(v) => v >= 0,
        Token::RawText(sp) => sp.spec_is_text_in(s),
        Token::Text(sp) => sp.spec_is_text_in(s),
        Token::Identifier(sp) => sp.spec_is_text_in(s),
        Token::Float(f) => match f.kind {
            FloatKind::Decimal { fraction, .. } => fraction.spec_is_text_in(s),
            _ => true,
        },
        _ => true,
    }
}

/// The peeked token, when it is one, lies inside `s`.
pub open spec fn peeked_in(p: Option<Result<Token, LexError>>, s: Seq<u8>) -> bool {
    p matches Some(Ok(t)) ==> token_in(t, s)
}

/// The invariant of a lexer state over `s`.
pub open spec fn state_ok(s: Seq<u8>, st: LexerState) -> bool {
    &&& 0 <= st.pos <= s.len()
    &&& is_char_boundary(s, st.pos)
    &&& 1 <= st.nline <= st.pos + 1
    &&& st.prev_token@ <= st.end_token@ <= st.pos
    &&& peeked_in(st.peeked, s)
    &&& (st.peeked matches Some(Ok(_)) ==> st.pos >= 1)
    &&& (st.peeked is None ==> st.pos == s.len())
}

/// The document conditions under which the lexer is defined: valid UTF-8
/// whose offsets fit in a `u32`.
pub open spec fn input_ok(s: Seq<u8>) -> bool {
    valid_utf8(s) && s.len() < u32::MAX
}

/// Calls of `next` until one hands out something other than a line break.
pub open spec fn skip_newlines(s: Seq<u8>, st: LexerState) -> (
    Option<Result<Token, LexError>>,
    LexerState,
)
    decreases progress(s, st),
    when state_ok(s, st) && input_ok(s)
{
    let (r, st2) = next_step(s, st);
    if r == Some(Ok::<Token, LexError>(Token::Newline)) {
        proof {
            lemma_lex_next(s, st.pos, st.nline as int);
        }
        skip_newlines(s, st2)
    } else {
        (r, st2)
    }
}

/// `next` keeps the invariant of the lexer state, and lowers the progress
/// measure whenever it hands out a token.
pub proof fn lemma_next_step(s: Seq<u8>, st: LexerState)
    requires
        input_ok(s),
        state_ok(s, st),
    ensures
        state_ok(s, next_step(s, st).1),
        next_step(s, st).0 matches Some(Ok(_)) ==> progress(s, next_step(s, st).1) < progress(
            s,
            st,
        ),
        progress(s, next_step(s, st).1) <= progress(s, st),
        next_step(s, st).0 matches Some(Ok(_)) ==> next_step(s, st).1.end_token@ >= 1,
{
    lemma_lex_next(s, st.pos, st.nline as int);
}

/// `skip_newlines` keeps the invariant of the lexer state and never hands
/// out a line break.
pub proof fn lemma_skip_newlines(s: Seq<u8>, st: LexerState)
    requires
        input_ok(s),
        state_ok(s, st),
    ensures
        state_ok(s, skip_newlines(s, st).1),
        skip_newlines(s, st).0 != Some(Ok::<Token, LexError>(Token::Newline)),
        progress(s, skip_newlines(s, st).1) <= progress(s, st),
        skip_newlines(s, st).0 matches Some(Ok(_)) ==> progress(s, skip_newlines(s, st).1)
            < progress(s, st),
        skip_newlines(s, st).0 matches Some(Ok(_)) ==> skip_newlines(s, st).1.end_token@ >= 1,
    decreases progress(s, st),
{
    lemma_next_step(s, st);
    let (r, st2) = next_step(s, st);
    if r == Some(Ok::<Token, LexError>(Token::Newline)) {
        lemma_skip_newlines(s, st2);
    }
}

/// Properties of `lex_next`: it moves forward, stays on character
/// boundaries, counts lines, and produces tokens inside the input.
pub proof fn lemma_lex_next(s: Seq<u8>, pos: int, line: int)
    requires
        valid_utf8(s),
        s.len() < u32::MAX,
        0 <= pos <= s.len(),
        is_char_boundary(s, pos),
    ensures
        pos <= lex_next(s, pos, line).pos <= s.len(),
        is_char_boundary(s, lex_next(s, pos, line).pos),
        line <= lex_next(s, pos, line).line <= line + (lex_next(s, pos, line).pos - pos),
        lex_next(s, pos, line).token matches Some(Ok(_)) ==> lex_next(s, pos, line).pos > pos,
        lex_next(s, pos, line).token is None ==> lex_next(s, pos, line).pos == s.len(),
        peeked_in(lex_next(s, pos, line).token, s),
{
    let p = skip_blank(s, pos);
    lemma_skip_blank_bounds(s, pos);
    lemma_skip_blank_boundary(s, pos);
    if p < s.len() {
        let c = s[p];
        if c == newline() {
            lemma_after_ascii(s, p + 1);
        } else if is_digit(c) {
            let e = number_end(s, p + 1);
            lemma_number_end_bounds(s, p + 1);
            lemma_after_ascii(s, e);
            lemma_digits_value_nonneg(s, p, e);
            if e + 2 <= s.len() && s[e] == 0x2e && s[e + 1] != 0x2e {
                let f = number_end(s, e + 1);
                lemma_number_end_bounds(s, e + 1);
                lemma_after_ascii(s, e + 1);
                if f > e + 1 {
                    lemma_after_ascii(s, f);
                }
            }
        } else if single_byte_token(c) is Some {
            lemma_after_ascii(s, p + 1);
        } else if c == 0x27 || c == 0x22 {
            lemma_after_ascii(s, p + 1);
            lemma_scan_string(s, p + 1, c, false);
        } else if is_ident_start(c) {
            let e = ident_end(s, p + 1);
            lemma_ident_end_bounds(s, p + 1);
            lemma_after_ascii(s, e);
            lemma_after_ascii(s, p + 1);
            lemma_at_ascii_or_end(s, p);
        }
    }
}

/// Properties of `scan_string`: a closing quote lies ahead, and the text
/// before it ends on a character boundary.
pub proof fn lemma_scan_string(s: Seq<u8>, i: int, q: u8, escaped: bool)
    requires
        valid_utf8(s),
        0 < i,
        q == 0x27 || q == 0x22,
    ensures
        scan_string(s, i, q, escaped) matches StringEnd::Closed { quote, .. } ==> {
            &&& i <= quote < s.len()
            &&& s[quote] == q
            &&& is_char_boundary(s, quote)
            &&& is_char_boundary(s, quote + 1)
        },
    decreases s.len() - i,
{
    if i < s.len() && s[i] != newline() {
        if s[i] == backslash() {
            if i + 1 < s.len() && s[i + 1] != newline() {
                lemma_scan_string(s, i + 2, q, true);
            }
        } else if s[i] == q {
            lemma_at_ascii_or_end(s, i);
            lemma_after_ascii(s, i + 1);
        } else {
            lemma_scan_string(s, i + 1, q, escaped);
        }
    }
}


/// Turns a Tero document into tokens, keeping one token of look-ahead.
pub struct Lexer<'a> {
    pub(crate) src: Src<'a>,
    ntoken: Option<Result<Token, LexError>>,
    end_token: Location,
    pub(crate) prev_token: Location,
    nline: u32,
    line: u32,
}

impl<'a> View for Lexer<'a> {
    type V = LexerState;

    closed spec fn view(&self) -> LexerState {
        LexerState {
            pos: self.src.pos(),
            peeked: self.ntoken,
            end_token: self.end_token,
            prev_token: self.prev_token,
            nline: self.nline,
            line: self.line,
        }
    }
}

impl<'a> Lexer<'a> {
    /// The bytes of the document.
    pub closed spec fn input(&self) -> Seq<u8> {
        self.src.input()
    }

    /// The cursor lies inside the document.
    pub closed spec fn cursor_ok(&self) -> bool {
        self.src.wf()
    }

    /// The invariant of a lexer.
    pub closed spec fn wf(&self) -> bool {
        &&& self.src.wf()
        &&& state_ok(self.src.input(), self@)
    }

    /// Reads the version line of `input` and the first token.
    pub fn new(input: &'a str) -> (r: Result<Self, LexError>)
        requires
            input.spec_bytes().len() < u32::MAX,
        ensures
            match r {
                Ok(lex) => {
                    &&& lex.wf()
                    &&& lex.input() == input.spec_bytes()
                    &&& start_state(input.spec_bytes()) == Ok::<LexerState, LexError>(lex@)
                },
                Err(e) => start_state(input.spec_bytes()) == Err::<LexerState, LexError>(e),
            },
    {
        let mut lexer = Lexer {
            src: Src::new(input, false),
            ntoken: None,
            nline: 1,
            line: 1,
            end_token: Location::zero(),
            prev_token: Location::zero(),
        };
        proof {
            lemma_skip_trim_bounds(lexer.input(), 0);
        }
        lexer.src.trim();
        proof {
            lemma_after_version(lexer.input());
        }
        lexer.checkversion()?;
        proof {
            lemma_lex_next(lexer.input(), lexer.src.pos(), 1);
        }
        lexer.ntoken = lexer.next_internal();
        Ok(lexer)
    }

    /// Reads the optional version line: `Tero` then the version, which must
    /// be `0`.
    fn checkversion(&mut self) -> (r: Result<(), LexError>)
        requires
            old(self).src.wf(),
            old(self).src.pos() == skip_trim(old(self).input(), 0),
        ensures
            final(self).src.wf(),
            final(self).input() == old(self).input(),
            final(self).nline == old(self).nline,
            final(self).line == old(self).line,
            final(self).ntoken == old(self).ntoken,
            final(self).end_token == old(self).end_token,
            final(self).prev_token == old(self).prev_token,
            match after_version(old(self).input()) {
                Ok(p) => r is Ok && final(self).src.pos() == p,
                Err(e) => r == Err::<(), LexError>(e),
            },
    {
        let ghost s = self.input();
        let ghost p = self.src.pos();
        if self.start_tero() {
            self.src.advance(4);
            proof {
                lemma_skip_version_space_bounds(s, p + 4);
            }
            while self.src.is_not_empty()
                invariant
                    self.src.wf(),
                    self.input() == s,
                    p + 4 <= self.src.pos() <= s.len(),
                    skip_version_space(s, self.src.pos()) == skip_version_space(s, p + 4),
                    self.nline == old(self).nline,
                    self.line == old(self).line,
                    self.ntoken == old(self).ntoken,
                    self.end_token == old(self).end_token,
                    self.prev_token == old(self).prev_token,
                ensures
                    skip_version_space(s, self.src.pos()) == self.src.pos(),
                decreases s.len() - self.src.pos(),
            {
                let ch = self.src.get_byte_unchecked();
                if ch == 0x20 || ch == 0x09 || ch == 0x0d {
                    self.src.advance(1);
                } else {
                    break;
                }
            }
            match self.src.get_byte() {
                Some(0x30) => {
                    self.src.skip_current_line();
                    Ok(())
                },
                Some(ch) if 0x30 <= ch && ch <= 0x39 => Err(LexError::InvalidVersion),
                _ => {
                    self.src.reset();
                    Ok(())
                },
            }
        } else {
            Ok(())
        }
    }

    /// True when the version keyword `Tero` is at the cursor.
    fn start_tero(&self) -> (r: bool)
        requires
            self.src.wf(),
        ensures
            r == (self.src.pos() + 4 <= self.input().len() && self.input().subrange(
                self.src.pos(),
                self.src.pos() + 4,
            ) == word_tero()),
    {
        if self.src.is_size(4) {
            let p = self.src.curr();
            let r = self.src.byte_at(p) == 0x54 && self.src.byte_at(p + 1) == 0x65
                && self.src.byte_at(p + 2) == 0x72 && self.src.byte_at(p + 3) == 0x6f;
            proof {
                if r {
                    assert(self.input().subrange(p as int, p + 4) =~= word_tero());
                } else {
                    if self.input().subrange(p as int, p + 4) == word_tero() {
                        assert(self.input().subrange(p as int, p + 4)[0] == 0x54);
                        assert(self.input().subrange(p as int, p + 4)[1] == 0x65);
                        assert(self.input().subrange(p as int, p + 4)[2] == 0x72);
                        assert(self.input().subrange(p as int, p + 4)[3] == 0x6f);
                    }
                }
            }
            r
        } else {
            false
        }
    }

    /// Moves over blanks and comments.
    fn skip_blanks(&mut self)
        requires
            old(self).src.wf(),
        ensures
            final(self).src.wf(),
            final(self).input() == old(self).input(),
            final(self).src.pos() == skip_blank(old(self).input(), old(self).src.pos()),
            final(self).nline == old(self).nline,
            final(self).line == old(self).line,
            final(self).ntoken == old(self).ntoken,
            final(self).end_token == old(self).end_token,
            final(self).prev_token == old(self).prev_token,
    {
        let ghost s = self.input();
        while self.src.is_not_empty()
            invariant
                self.src.wf(),
                self.input() == s,
                old(self).src.pos() <= self.src.pos() <= s.len(),
                skip_blank(s, self.src.pos()) == skip_blank(s, old(self).src.pos()),
                self.nline == old(self).nline,
                self.line == old(self).line,
                self.ntoken == old(self).ntoken,
                self.end_token == old(self).end_token,
                self.prev_token == old(self).prev_token,
            ensures
                skip_blank(s, self.src.pos()) == self.src.pos(),
            decreases s.len() - self.src.pos(),
        {
            let ch = self.src.get_byte_unchecked();
            if ch == 0x20 || ch == 0x09 || ch == 0x0d || ch == 0x00 {
                self.src.advance(1);
            } else if ch == 0x23 {
                let ghost q = self.src.pos();
                self.src.advance(1);
                self.src.skip_current_line();
                proof {
                    lemma_line_end_bounds(s, q + 1);
                }
            } else {
                break;
            }
        }
    }

    /// Reads the token after the cursor.
    fn next_internal(&mut self) -> (r: Option<Result<Token, LexError>>)
        requires
            old(self).src.wf(),
            is_char_boundary(old(self).input(), old(self).src.pos()),
            old(self).nline <= old(self).src.pos() + 1,
        ensures
            final(self).src.wf(),
            final(self).input() == old(self).input(),
            r == lex_next(old(self).input(), old(self).src.pos(), old(self).nline as int).token,
            final(self).src.pos() == lex_next(
                old(self).input(),
                old(self).src.pos(),
                old(self).nline as int,
            ).pos,
            final(self).nline == lex_next(
                old(self).input(),
                old(self).src.pos(),
                old(self).nline as int,
            ).line,
            final(self).line == old(self).line,
            final(self).ntoken == old(self).ntoken,
            final(self).end_token == old(self).end_token,
            final(self).prev_token == old(self).prev_token,
    {
        let ghost s = self.input();
        let ghost line0 = self.nline as int;
        self.skip_blanks();
        let ghost p = self.src.pos();
        proof {
            lemma_skip_blank_bounds(s, old(self).src.pos());
            lemma_skip_blank_boundary(s, old(self).src.pos());
        }
        if self.src.is_empty() {
            return None;
        }
        let ch = self.src.get_byte_unchecked();
        self.src.advance(1);
        if ch == 0x0a {
            self.nline = self.nline + 1;
            Some(Ok(Token::Newline))
        } else if 0x30 <= ch && ch <= 0x39 {
            Some(self.number(ch))
        } else if ch == 0x2d {
            Some(Ok(Token::Sub))
        } else if ch == 0x2c {
            Some(Ok(Token::Comma))
        } else if ch == 0x3a {
            Some(Ok(Token::Colon))
        } else if ch == 0x7b {
            Some(Ok(Token::LeftBrace))
        } else if ch == 0x7d {
            Some(Ok(Token::RightBrace))
        } else if ch == 0x5b {
            Some(Ok(Token::LeftBracket))
        } else if ch == 0x5d {
            Some(Ok(Token::RightBracket))
        } else if ch == 0x27 || ch == 0x22 {
            Some(self.next_string(ch))
        } else if (0x61 <= ch && ch <= 0x7a) || (0x41 <= ch && ch <= 0x5a) || ch == 0x5f {
            Some(Ok(self.identifier()))
        } else {
            self.src.retreat(1);
            Some(Err(LexError::InvalidCharacter(self.src.char_at_cursor())))
        }
    }

    /// Reads a number literal whose first digit `ch` is just behind the
    /// cursor.
    fn number(&mut self, ch: u8) -> (r: Result<Token, LexError>)
        requires
            old(self).src.wf(),
            1 <= old(self).src.pos() <= old(self).input().len(),
            old(self).input()[old(self).src.pos() - 1] == ch,
            is_digit(ch),
        ensures
            final(self).src.wf(),
            final(self).input() == old(self).input(),
            Some(r) == lex_number(old(self).input(), old(self).src.pos() - 1, old(self).nline as int).token,
            final(self).src.pos() == lex_number(
                old(self).input(),
                old(self).src.pos() - 1,
                old(self).nline as int,
            ).pos,
            final(self).nline == old(self).nline,
            final(self).line == old(self).line,
            final(self).ntoken == old(self).ntoken,
            final(self).end_token == old(self).end_token,
            final(self).prev_token == old(self).prev_token,
    {
        let ghost s = self.input();
        let start = self.src.curr() - 1;
        self.scan_number_chars();
        let end = self.src.curr();
        proof {
            lemma_number_end_bounds(s, start + 1);
        }
        let mut value: u64 = 0;
        let mut overflow = false;
        let mut i = start;
        while i < end
            invariant_except_break
                !overflow,
            invariant
                self.src.wf(),
                self.input() == s,
                start < end <= s.len(),
                start <= i <= end,
                end == number_end(s, start + 1),
                forall|k: int| start <= k < end ==> is_number_char(s[k]),
                value == digits_value(s, start as int, i as int),
                value <= i64::MAX,
                self.src.pos() == end,
                self.nline == old(self).nline,
                self.line == old(self).line,
                self.ntoken == old(self).ntoken,
                self.end_token == old(self).end_token,
                self.prev_token == old(self).prev_token,
            ensures
                overflow ==> digits_value(s, start as int, end as int) > i64::MAX,
                !overflow ==> value == digits_value(s, start as int, end as int),
            decreases end - i,
        {
            let b = self.src.byte_at(i);
            if b != 0x5f {
                let d = (b - 0x30) as u64;
                if value > (9223372036854775807u64 - d) / 10 {
                    proof {
                        assert(value * 10 + d > i64::MAX) by (nonlinear_arith)
                            requires
                                value > (9223372036854775807u64 - d) / 10,
                                d <= 9,
                        ;
                        lemma_digits_value_monotone(s, start as int, i + 1, end as int);
                    }
                    overflow = true;
                    break;
                }
                proof {
                    assert(value * 10 + d <= i64::MAX) by (nonlinear_arith)
                        requires
                            value <= (9223372036854775807u64 - d) / 10,
                            d <= 9,
                    ;
                }
                value = value * 10 + d;
            }
            i = i + 1;
        }
        if overflow {
            let back = self.src.curr() - start;
            self.src.retreat(back);
            return Err(LexError::NumericOverflow);
        }
        Ok(self.flotable(value as i64))
    }

    /// Moves the cursor over digits and `_`.
    fn scan_number_chars(&mut self)
        requires
            old(self).src.wf(),
        ensures
            final(self).src.wf(),
            final(self).input() == old(self).input(),
            final(self).src.pos() == number_end(old(self).input(), old(self).src.pos()),
            final(self).nline == old(self).nline,
            final(self).line == old(self).line,
            final(self).ntoken == old(self).ntoken,
            final(self).end_token == old(self).end_token,
            final(self).prev_token == old(self).prev_token,
    {
        let ghost s = self.input();
        while self.src.is_not_empty()
            invariant
                self.src.wf(),
                self.input() == s,
                old(self).src.pos() <= self.src.pos() <= s.len(),
                number_end(s, self.src.pos()) == number_end(s, old(self).src.pos()),
                self.nline == old(self).nline,
                self.line == old(self).line,
                self.ntoken == old(self).ntoken,
                self.end_token == old(self).end_token,
                self.prev_token == old(self).prev_token,
            ensures
                number_end(s, self.src.pos()) == self.src.pos(),
            decreases s.len() - self.src.pos(),
        {
            let ch = self.src.get_byte_unchecked();
            if (0x30 <= ch && ch <= 0x39) || ch == 0x5f {
                self.src.advance(1);
            } else {
                break;
            }
        }
    }

    /// Reads what follows the integer part `num` of a number: a point and
    /// fraction digits make a float, anything else leaves an integer.
    fn flotable(&mut self, num: i64) -> (r: Token)
        requires
            old(self).src.wf(),
            num >= 0,
        ensures
            final(self).src.wf(),
            final(self).input() == old(self).input(),
            ({
                let s = old(self).input();
                let e = old(self).src.pos();
                if e + 2 <= s.len() && s[e] == 0x2e && s[e + 1] != 0x2e {
                    &&& r == Token::Float(
                        FloatLiteral {
                            negative: false,
                            kind: FloatKind::Decimal {
                                integer: num,
                                fraction: span_of(e + 1, number_end(s, e + 1), old(self).nline as int),
                            },
                        },
                    )
                    &&& final(self).src.pos() == number_end(s, e + 1)
                } else {
                    &&& r == Token::Int(num)
                    &&& final(self).src.pos() == e
                }
            }),
            final(self).nline == old(self).nline,
            final(self).line == old(self).line,
            final(self).ntoken == old(self).ntoken,
            final(self).end_token == old(self).end_token,
            final(self).prev_token == old(self).prev_token,
    {
        let e = self.src.curr();
        if self.src.is_size(2) && self.src.byte_at(e) == 0x2e && self.src.byte_at(e + 1) != 0x2e {
            self.src.advance(1);
            self.next_float(num)
        } else {
            Token::Int(num)
        }
    }

    /// Reads the fraction digits of a float whose integer part is `num`;
    /// the cursor is just after the point.
    fn next_float(&mut self, num: i64) -> (r: Token)
        requires
            old(self).src.wf(),
        ensures
            final(self).src.wf(),
            final(self).input() == old(self).input(),
            r == Token::Float(
                FloatLiteral {
                    negative: false,
                    kind: FloatKind::Decimal {
                        integer: num,
                        fraction: span_of(
                            old(self).src.pos(),
                            number_end(old(self).input(), old(self).src.pos()),
                            old(self).nline as int,
                        ),
                    },
                },
            ),
            final(self).src.pos() == number_end(old(self).input(), old(self).src.pos()),
            final(self).nline == old(self).nline,
            final(self).line == old(self).line,
            final(self).ntoken == old(self).ntoken,
            final(self).end_token == old(self).end_token,
            final(self).prev_token == old(self).prev_token,
    {
        let start = Location::new(&self.src);
        proof {
            lemma_number_end_bounds(self.input(), self.src.pos());
        }
        self.scan_number_chars();
        let end = Location::new(&self.src);
        let fraction = Span::new_from_end(self.nline, start, end);
        Token::Float(
            FloatLiteral { negative: false, kind: FloatKind::Decimal { integer: num, fraction } },
        )
    }

    /// Reads a key or keyword whose first byte is just behind the cursor.
    pub fn identifier(&mut self) -> (r: Token)
        requires
            old(self).cursor_ok(),
            1 <= old(self)@.pos <= old(self).input().len(),
            is_ident_start(old(self).input()[old(self)@.pos - 1]),
        ensures
            final(self).cursor_ok(),
            final(self).input() == old(self).input(),
            Some(Ok::<Token, LexError>(r)) == lex_word(old(self).input(), old(self)@.pos - 1, old(self)@.nline as int).token,
            final(self)@ == (LexerState {
                pos: lex_word(old(self).input(), old(self)@.pos - 1, old(self)@.nline as int).pos,
                ..old(self)@
            }),
    {
        let ghost s = self.input();
        let mut location = Location::new(&self.src);
        location.retreat(1);
        let p = self.src.curr() - 1;
        proof {
            lemma_ident_end_bounds(s, p + 1);
        }
        while self.src.is_not_empty()
            invariant
                self.src.wf(),
                self.input() == s,
                old(self).src.pos() <= self.src.pos() <= s.len(),
                ident_end(s, self.src.pos()) == ident_end(s, old(self).src.pos()),
                self.nline == old(self).nline,
                self.line == old(self).line,
                self.ntoken == old(self).ntoken,
                self.end_token == old(self).end_token,
                self.prev_token == old(self).prev_token,
            ensures
                ident_end(s, self.src.pos()) == self.src.pos(),
            decreases s.len() - self.src.pos(),
        {
            let ch = self.src.get_byte_unchecked();
            if (0x61 <= ch && ch <= 0x7a) || (0x41 <= ch && ch <= 0x5a) || (0x30 <= ch && ch
                <= 0x39) || ch == 0x5f {
                self.src.advance(1);
            } else {
                break;
            }
        }
        let e = self.src.curr();
        let end = Location::new(&self.src);
        let span = Span::new_from_end(self.nline, location, end);
        let ghost word = s.subrange(p as int, e as int);
        if self.word_is(p, e, 0x74, 0x72, 0x75, 0x65, 0, 0, 0, 0, 4) {
            proof { assert(word =~= word_true()); }
            Token::Boolean(true)
        } else if self.word_is(p, e, 0x66, 0x61, 0x6c, 0x73, 0x65, 0, 0, 0, 5) {
            proof { assert(word =~= word_false()); assert(word != word_true()); }
            Token::Boolean(false)
        } else if self.word_is(p, e, 0x4e, 0x61, 0x4e, 0, 0, 0, 0, 0, 3) {
            proof { assert(word =~= word_nan()); assert(word != word_true()); assert(word != word_false()); }
            Token::Float(FloatLiteral { negative: false, kind: FloatKind::NaN })
        } else if self.word_is(p, e, 0x49, 0x6e, 0x66, 0x69, 0x6e, 0x69, 0x74, 0x79, 8) {
            proof { assert(word =~= word_infinity()); assert(word != word_true()); assert(word != word_false()); assert(word != word_nan()); }
            Token::Float(FloatLiteral { negative: false, kind: FloatKind::Infinity })
        } else if self.word_is(p, e, 0x6e, 0x69, 0x6c, 0, 0, 0, 0, 0, 3) {
            proof { assert(word =~= word_nil()); assert(word != word_true()); assert(word != word_false()); assert(word != word_nan()); assert(word != word_infinity()); }
            Token::Nil
        } else {
            proof {
                assert(word != word_true()) by { if word == word_true() { assert(word =~= seq![0x74u8, 0x72, 0x75, 0x65, 0, 0, 0, 0].subrange(0, 4)); self.lemma_spelled(p as int, e as int, seq![0x74u8, 0x72, 0x75, 0x65, 0, 0, 0, 0], 4); } }
                assert(word != word_false()) by { if word == word_false() { assert(word =~= seq![0x66u8, 0x61, 0x6c, 0x73, 0x65, 0, 0, 0].subrange(0, 5)); self.lemma_spelled(p as int, e as int, seq![0x66u8, 0x61, 0x6c, 0x73, 0x65, 0, 0, 0], 5); } }
                assert(word != word_nan()) by { if word == word_nan() { assert(word =~= seq![0x4eu8, 0x61, 0x4e, 0, 0, 0, 0, 0].subrange(0, 3)); self.lemma_spelled(p as int, e as int, seq![0x4eu8, 0x61, 0x4e, 0, 0, 0, 0, 0], 3); } }
                assert(word != word_infinity()) by { if word == word_infinity() { assert(word =~= seq![0x49u8, 0x6e, 0x66, 0x69, 0x6e, 0x69, 0x74, 0x79].subrange(0, 8)); self.lemma_spelled(p as int, e as int, seq![0x49u8, 0x6e, 0x66, 0x69, 0x6e, 0x69, 0x74, 0x79], 8); } }
                assert(word != word_nil()) by { if word == word_nil() { assert(word =~= seq![0x6eu8, 0x69, 0x6c, 0, 0, 0, 0, 0].subrange(0, 3)); self.lemma_spelled(p as int, e as int, seq![0x6eu8, 0x69, 0x6c, 0, 0, 0, 0, 0], 3); } }
            }
            Token::Identifier(span)
        }
    }

    /// The bytes `s[p..e]` are the first `n` of `w`.
    spec fn spelled(&self, p: int, e: int, w: Seq<u8>, n: int) -> bool {
        e - p == n && forall|k: int| 0 <= k < n ==> self.input()[p + k] == w[k]
    }

    proof fn lemma_spelled(&self, p: int, e: int, w: Seq<u8>, n: int)
        requires
            0 <= p <= e <= self.input().len(),
            w.len() == 8,
            0 <= n <= 8,
            self.input().subrange(p, e) == w.subrange(0, n),
        ensures
            self.spelled(p, e, w, n),
    {
        assert(self.input().subrange(p, e).len() == e - p);
        assert(w.subrange(0, n).len() == n);
        assert forall|k: int| 0 <= k < n implies self.input()[p + k] == w[k] by {
            assert(self.input().subrange(p, e)[k] == self.input()[p + k]);
            assert(w.subrange(0, n)[k] == w[k]);
            assert(self.input().subrange(p, e)[k] == w.subrange(0, n)[k]);
        }
    }

    /// True when the bytes from `p` to `e` spell the first `n` of the given
    /// bytes.
    fn word_is(
        &self,
        p: usize,
        e: usize,
        b0: u8,
        b1: u8,
        b2: u8,
        b3: u8,
        b4: u8,
        b5: u8,
        b6: u8,
        b7: u8,
        n: usize,
    ) -> (r: bool)
        requires
            self.src.wf(),
            p <= e <= self.input().len(),
            1 <= n <= 8,
        ensures
            r == self.spelled(p as int, e as int, seq![b0, b1, b2, b3, b4, b5, b6, b7], n as int),
            r ==> self.input().subrange(p as int, e as int) =~= seq![
                b0,
                b1,
                b2,
                b3,
                b4,
                b5,
                b6,
                b7,
            ].subrange(0, n as int),
    {
        let ghost w = seq![b0, b1, b2, b3, b4, b5, b6, b7];
        if e - p != n {
            return false;
        }
        let mut k: usize = 0;
        while k < n
            invariant
                self.src.wf(),
                p <= e <= self.input().len(),
                e - p == n,
                n <= 8,
                0 <= k <= n,
                w == seq![b0, b1, b2, b3, b4, b5, b6, b7],
                forall|j: int| 0 <= j < k ==> self.input()[p + j] == w[j],
            decreases n - k,
        {
            let want = if k == 0 {
                b0
            } else if k == 1 {
                b1
            } else if k == 2 {
                b2
            } else if k == 3 {
                b3
            } else if k == 4 {
                b4
            } else if k == 5 {
                b5
            } else if k == 6 {
                b6
            } else {
                b7
            };
            if self.src.byte_at(p + k) != want {
                return false;
            }
            k = k + 1;
        }
        true
    }

    /// Reads a string literal whose opening quote `closed` is just behind
    /// the cursor.
    pub fn next_string(&mut self, closed: u8) -> (r: Result<Token, LexError>)
        requires
            old(self).cursor_ok(),
            1 <= old(self)@.pos <= old(self).input().len(),
            old(self).input()[old(self)@.pos - 1] == closed,
        ensures
            final(self).cursor_ok(),
            final(self).input() == old(self).input(),
            Some(r) == lex_string(old(self).input(), old(self)@.pos - 1, old(self)@.nline as int).token,
            final(self)@ == (LexerState {
                pos: lex_string(old(self).input(), old(self)@.pos - 1, old(self)@.nline as int).pos,
                ..old(self)@
            }),
    {
        let ghost s = self.input();
        let location = Location::new(&self.src);
        let start = self.src.curr();
        let mut is_special = false;
        let mut failure = LexError::UnterminatedString;
        let mut closed_at: Option<Span> = None;
        while self.src.is_not_empty()
            invariant_except_break
                failure == LexError::UnterminatedString,
                closed_at is None,
                scan_string(s, self.src.pos(), closed, is_special) == scan_string(s, start as int, closed, false),
            invariant
                self.src.wf(),
                self.input() == s,
                1 <= start <= self.src.pos() <= s.len(),
                location@ == start,
                s[start - 1] == closed,
                self.nline == old(self).nline,
                self.line == old(self).line,
                self.ntoken == old(self).ntoken,
                self.end_token == old(self).end_token,
                self.prev_token == old(self).prev_token,
            ensures
                closed_at is None ==> scan_string(s, start as int, closed, false) == (StringEnd::Failed { error: failure }),
                closed_at matches Some(sp) ==> {
                    &&& scan_string(s, start as int, closed, false) == (StringEnd::Closed { quote: self.src.pos() - 1, escaped: is_special })
                    &&& sp == span_of(start as int, self.src.pos() - 1, self.nline as int)
                },
            decreases s.len() - self.src.pos(),
        {
            let i = self.src.curr();
            let b = self.src.get_byte_unchecked();
            if b == 0x0a {
                break;
            } else if b == 0x5c {
                if !self.src.is_size(2) {
                    failure = LexError::UnexpectedEOF;
                    break;
                }
                if self.src.byte_at(i + 1) == 0x0a {
                    break;
                }
                is_special = true;
                self.src.advance(2);
            } else if b == closed {
                let end = Location::new(&self.src);
                closed_at = Some(Span::new_from_end(self.nline, location, end));
                self.src.advance(1);
                break;
            } else {
                self.src.advance(1);
            }
        }
        if let Some(span) = closed_at {
            return Ok(if is_special {
                Token::Text(span)
            } else {
                Token::RawText(span)
            });
        }
        let back = self.src.curr() - start + 1;
        self.src.retreat(back);
        Err(failure)
    }

    /// Hands out the peeked token and reads the next one. A lexical error,
    /// once peeked, is handed out on every later call.
    pub fn next(&mut self) -> (r: Option<Result<Token, LexError>>)
        requires
            old(self).wf(),
        ensures
            final(self).wf(),
            final(self).input() == old(self).input(),
            (r, final(self)@) == next_step(old(self).input(), old(self)@),
    {
        if let Some(Err(_)) = &self.ntoken {
            return self.ntoken;
        }
        self.line = self.nline;
        self.prev_token = self.end_token;
        self.end_token = Location::new(&self.src);
        proof {
            lemma_lex_next(self.input(), self.src.pos(), self.nline as int);
        }
        let tk = self.next_internal();
        let r = self.ntoken;
        self.ntoken = tk;
        r
    }

    /// Hands out the next token that is not a line break.
    pub fn next_skip_ln(&mut self) -> (r: Option<Result<Token, LexError>>)
        requires
            old(self).wf(),
        ensures
            final(self).wf(),
            final(self).input() == old(self).input(),
            (r, final(self)@) == skip_newlines(old(self).input(), old(self)@),
    {
        let ghost s = self.input();
        let mut r = None;
        loop
            invariant_except_break
                skip_newlines(s, self@) == skip_newlines(s, old(self)@),
            invariant
                self.wf(),
                self.input() == s,
                input_ok(s),
            ensures
                (r, self@) == skip_newlines(s, old(self)@),
            decreases progress(s, self@),
        {
            let ghost before = self@;
            proof {
                lemma_next_step(s, self@);
            }
            let t = self.next();
            match t {
                Some(Ok(Token::Newline)) => {},
                _ => {
                    r = t;
                    break;
                },
            }
        }
        r
    }

    /// Sets the position reported by `prevlocation`, which must not lie
    /// after the one reported by `location`.
    pub(crate) fn set_prev_location(&mut self, loc: Location)
        requires
            old(self).wf(),
            loc@ <= old(self)@.end_token@,
        ensures
            final(self).wf(),
            final(self).input() == old(self).input(),
            final(self)@ == (LexerState { prev_token: loc, ..old(self)@ }),
    {
        self.prev_token = loc;
    }

    /// The location of the read position (after the peeked token).
    pub(crate) fn cursor_location(&self) -> (r: Location)
        requires
            self.wf(),
        ensures
            r@ == self@.pos,
    {
        Location::new(&self.src)
    }

    /// The source cursor.
    pub(crate) fn source(&self) -> (r: &Src<'a>)
        requires
            self.wf(),
        ensures
            r.wf(),
            r.input() == self.input(),
            r.pos() == self@.pos,
    {
        &self.src
    }

    /// The token `next` hands out next.
    pub fn peek(&self) -> (r: Option<Result<Token, LexError>>)
        ensures
            r == self@.peeked,
    {
        self.ntoken
    }

    /// The position after the token handed out last.
    pub fn location(&self) -> (r: Location)
        ensures
            r == self@.end_token,
    {
        self.end_token
    }

    /// The position after the token handed out before the last one.
    pub fn prevlocation(&self) -> (r: Location)
        ensures
            r == self@.prev_token,
    {
        self.prev_token
    }

    /// The line of the token handed out last.
    pub fn line(&self) -> (r: u32)
        ensures
            r == self@.line,
    {
        self.line
    }
}

/// What the invariant of a lexer tells about its state.
pub broadcast proof fn lemma_lexer_wf(lex: &Lexer)
    requires
        #[trigger] lex.wf(),
    ensures
        state_ok(lex.input(), lex@),
        input_ok(lex.input()),
{
}

impl Span {
    /// True when the span lies inside the input read by `lex`.
    pub fn is_valid(&self, lex: &Lexer) -> (r: bool)
        requires
            lex.wf(),
        ensures
            r == self.spec_valid_in(lex.input()),
    {
        self.is_valid_with_src(&lex.src)
    }

    /// The text covered by the span, taken from the input read by `lexer`;
    /// `None` when the span does not cover a piece of that text.
    pub fn as_str<'a>(&self, lexer: &Lexer<'a>) -> (r: Option<&'a str>)
        requires
            lexer.wf(),
        ensures
            r is Some <==> self.spec_is_text_in(lexer.input()),
            r matches Some(s) ==> s.spec_bytes() == lexer.input().subrange(
                self@.start as int,
                self@.end as int,
            ),
    {
        let src = &lexer.src;
        if self.is_valid_with_src(src) && src.is_boundary(self.get_start().get_offset() as usize)
            && src.is_boundary(self.get_end() as usize) {
            Some(self.as_str_with_src_unchecked(src))
        } else {
            None
        }
    }

    /// The text covered by the span, which must be a piece of the input read
    /// by `lexer`.
    pub fn as_str_unchecked<'a>(&self, lexer: &Lexer<'a>) -> (r: &'a str)
        requires
            lexer.wf(),
            self.spec_is_text_in(lexer.input()),
        ensures
            r.spec_bytes() == lexer.input().subrange(self@.start as int, self@.end as int),
    {
        self.as_str_with_src_unchecked(&lexer.src)
    }
}

} // verus!
