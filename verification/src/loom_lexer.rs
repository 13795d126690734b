//! The lexer of the Loom reading of Tero (version line `TERO 0`), whose
//! tokens borrow their text from the document.
use vstd::prelude::*;
use vstd::utf8::*;
use vstd::string::StringSliceAdditionalSpecFns;
use crate::grammar::{
    is_digit,
    is_version_space,
    is_ident_start,
    is_ident_char,
    is_number_char,
    skip_version_space,
    number_end,
    ident_end,
    line_end,
    newline,
    hash,
    backslash,
    lemma_line_end_bounds,
    lemma_skip_version_space_bounds,
    lemma_number_end_bounds,
    lemma_ident_end_bounds,
    lemma_after_ascii,
    lemma_at_ascii_or_end,
};
use crate::source::{Src, lemma_src_wf};
use crate::lexer::{word_true, word_false, word_nan, word_infinity, word_nil};
use crate::report::{back_to_leading, lemma_back_to_leading};
use crate::text::{push_char, push_signed, signed_decimal, same_bytes};

verus! {

broadcast use {lemma_src_wf, encode_utf8_valid_utf8};

/// The errors of the lexical stage.
#[derive(Debug, PartialEq, Eq, Clone, Copy)]
pub enum LexError {
    /// The version line asks for a version other than 0.
    InvalidVersion,
    /// A character that does not belong to the grammar.
    InvalidCharacter(char),
    /// A string literal left open before the end of the line or file.
    UnterminatedString,
}

/// A float literal as written: the value of its integer digits and the
/// bytes that follow its point.
#[derive(Debug, PartialEq, Clone, Copy)]
pub struct FloatDigits<'a> {
    pub integer: i64,
    pub fraction: &'a [u8],
}

/// The primitive values the lexer reads.
#[derive(Debug, PartialEq, Clone, Copy)]
pub enum Literal<'a> {
    Integer(i64),
    Float(FloatDigits<'a>),
    /// A string with escapes; the text runs from after the opening quote
    /// up to and including the closing one.
    Text(&'a str),
    /// A string without escapes, held as `Text` is.
    RawText(&'a str),
    Boolean(bool),
    Nil,
    NaN,
    Infinity,
}

/// A value of the document: for now always a literal.
#[derive(Debug, PartialEq, Clone, Copy)]
pub enum LoomValue<'a> {
    Raw(Literal<'a>),
}

/// The tokens the lexer hands out.
#[derive(Debug, PartialEq, Clone, Copy)]
pub enum Token<'a> {
    Value(LoomValue<'a>),
    Identifier(&'a str),
    Colon,
    Comma,
    LeftBrace,
    RightBrace,
    LeftBracket,
    RightBracket,
    Newline,
    Sub,
}

/// The string of the characters `cs`.
pub(crate) fn string_of(cs: &[char]) -> (r: String)
    ensures
        r@ == cs@,
{
    let mut r = String::new();
    let mut i: usize = 0;
    while i < cs.len()
        invariant
            i <= cs.len(),
            r@ == cs@.subrange(0, i as int),
        decreases cs.len() - i,
    {
        push_char(&mut r, cs[i]);
        i = i + 1;
        proof {
            assert(r@ =~= cs@.subrange(0, i as int));
        }
    }
    proof {
        assert(cs@.subrange(0, cs@.len() as int) =~= cs@);
    }
    r
}

/// How a literal is written, as its `Display` shows it: `inf` for
/// `Infinity`, a string's text with its closing quote; `None` for a float
/// with digits, whose spelling depends on how its value is rounded.
pub open spec fn literal_chars(l: Literal) -> Option<Seq<char>> {
    match l {
        Literal::Integer(i) => Some(signed_decimal(i as int)),
        Literal::Float(_) => None,
        Literal::Text(x) => Some(x@),
        Literal::RawText(x) => Some(x@),
        Literal::Boolean(b) => Some(
            if b {
                seq!['t', 'r', 'u', 'e']
            } else {
                seq!['f', 'a', 'l', 's', 'e']
            },
        ),
        Literal::Nil => Some(seq!['n', 'i', 'l']),
        Literal::NaN => Some(seq!['N', 'a', 'N']),
        Literal::Infinity => Some(seq!['i', 'n', 'f']),
    }
}

/// How a token is written, as its `Display` shows it: `\n` for a line
/// break; `None` for a float with digits.
pub open spec fn token_chars(t: Token) -> Option<Seq<char>> {
    match t {
        Token::Value(LoomValue::Raw(l)) => literal_chars(l),
        Token::Identifier(x) => Some(x@),
        Token::Colon => Some(seq![':']),
        Token::Comma => Some(seq![',']),
        Token::LeftBrace => Some(seq!['{']),
        Token::RightBrace => Some(seq!['}']),
        Token::LeftBracket => Some(seq!['[']),
        Token::RightBracket => Some(seq![']']),
        Token::Newline => Some(seq!['\\', 'n']),
        Token::Sub => Some(seq!['-']),
    }
}

impl<'a> LoomValue<'a> {
    /// The text of the value; see `literal_chars`.
    pub fn to_text(&self) -> (r: Option<String>)
        ensures
            match self {
                LoomValue::Raw(l) => match literal_chars(*l) {
                    Some(c) => r matches Some(x) && x@ == c,
                    None => r is None,
                },
            },
    {
        match self {
            LoomValue::Raw(Literal::Integer(i)) => {
                let mut r = String::new();
                push_signed(&mut r, *i);
                proof {
                    assert(r@ =~= signed_decimal(*i as int));
                }
                Some(r)
            },
            LoomValue::Raw(Literal::Float(_)) => None,
            LoomValue::Raw(Literal::Text(x)) => Some((*x).to_owned()),
            LoomValue::Raw(Literal::RawText(x)) => Some((*x).to_owned()),
            LoomValue::Raw(Literal::Boolean(b)) => {
                if *b {
                    let w = ['t', 'r', 'u', 'e'];
                    proof {
                        assert(w@ =~= seq!['t', 'r', 'u', 'e']);
                    }
                    Some(string_of(&w))
                } else {
                    let w = ['f', 'a', 'l', 's', 'e'];
                    proof {
                        assert(w@ =~= seq!['f', 'a', 'l', 's', 'e']);
                    }
                    Some(string_of(&w))
                }
            },
            LoomValue::Raw(Literal::Nil) => {
                let w = ['n', 'i', 'l'];
                proof {
                    assert(w@ =~= seq!['n', 'i', 'l']);
                }
                Some(string_of(&w))
            },
            LoomValue::Raw(Literal::NaN) => {
                let w = ['N', 'a', 'N'];
                proof {
                    assert(w@ =~= seq!['N', 'a', 'N']);
                }
                Some(string_of(&w))
            },
            LoomValue::Raw(Literal::Infinity) => {
                let w = ['i', 'n', 'f'];
                proof {
                    assert(w@ =~= seq!['i', 'n', 'f']);
                }
                Some(string_of(&w))
            },
        }
    }
}

impl<'a> Token<'a> {
    /// The text of the token; see `token_chars`.
    pub fn to_text(&self) -> (r: Option<String>)
        ensures
            match token_chars(*self) {
                Some(c) => r matches Some(x) && x@ == c,
                None => r is None,
            },
    {
        match self {
            Token::Value(v) => v.to_text(),
            Token::Identifier(x) => Some((*x).to_owned()),
            Token::Colon => Some(single_char(':')),
            Token::Comma => Some(single_char(',')),
            Token::LeftBrace => Some(single_char('{')),
            Token::RightBrace => Some(single_char('}')),
            Token::LeftBracket => Some(single_char('[')),
            Token::RightBracket => Some(single_char(']')),
            Token::Newline => {
                let w = ['\\', 'n'];
                proof {
                    assert(w@ =~= seq!['\\', 'n']);
                }
                Some(string_of(&w))
            },
            Token::Sub => Some(single_char('-')),
        }
    }
}

/// The string of the one character `c`.
fn single_char(c: char) -> (r: String)
    ensures
        r@ == seq![c],
{
    let mut r = String::new();
    push_char(&mut r, c);
    proof {
        assert(r@ =~= seq![c]);
    }
    r
}

/// A token described by offsets into the document instead of borrowed
/// text.
pub enum TokenModel {
    Integer(i64),
    /// The integer value and the offsets of the bytes after the point.
    Float(i64, int, int),
    Text(int, int),
    RawText(int, int),
    Boolean(bool),
    Nil,
    NaN,
    Infinity,
    Identifier(int, int),
    Colon,
    Comma,
    LeftBrace,
    RightBrace,
    LeftBracket,
    RightBracket,
    Newline,
    Sub,
}

/// The token `t` is the one `m` describes in the document `s`.
pub open spec fn token_is(s: Seq<u8>, t: Token, m: TokenModel) -> bool {
    match m {
        TokenModel::Integer(v) => t == Token::Value(LoomValue::Raw(Literal::Integer(v))),
        TokenModel::Float(i, a, b) => t matches Token::Value(LoomValue::Raw(Literal::Float(f))) && f.integer
            == i && f.fraction@ == s.subrange(a, b),
        TokenModel::Text(a, b) => t matches Token::Value(LoomValue::Raw(Literal::Text(x)))
            && x.spec_bytes() == s.subrange(a, b),
        TokenModel::RawText(a, b) => t matches Token::Value(LoomValue::Raw(Literal::RawText(x)))
            && x.spec_bytes() == s.subrange(a, b),
        TokenModel::Boolean(v) => t == Token::Value(LoomValue::Raw(Literal::Boolean(v))),
        TokenModel::Nil => t == Token::Value(LoomValue::Raw(Literal::Nil)),
        TokenModel::NaN => t == Token::Value(LoomValue::Raw(Literal::NaN)),
        TokenModel::Infinity => t == Token::Value(LoomValue::Raw(Literal::Infinity)),
        TokenModel::Identifier(a, b) => t matches Token::Identifier(x) && x.spec_bytes() == s.subrange(
            a,
            b,
        ),
        TokenModel::Colon => t == Token::Colon,
        TokenModel::Comma => t == Token::Comma,
        TokenModel::LeftBrace => t == Token::LeftBrace,
        TokenModel::RightBrace => t == Token::RightBrace,
        TokenModel::LeftBracket => t == Token::LeftBracket,
        TokenModel::RightBracket => t == Token::RightBracket,
        TokenModel::Newline => t == Token::Newline,
        TokenModel::Sub => t == Token::Sub,
    }
}

/// A result of the lexer is the one `m` describes.
pub open spec fn outcome_is(
    s: Seq<u8>,
    r: Option<Result<Token, LexError>>,
    m: Option<Result<TokenModel, LexError>>,
) -> bool {
    match m {
        None => r is None,
        Some(Err(e)) => r == Some(Err::<Token, LexError>(e)),
        Some(Ok(tm)) => r matches Some(Ok(t)) && token_is(s, t, tm),
    }
}

/// What reading one token yields: the token (`None` at the end of the
/// input), the position after it, and the line count after it.
pub struct Step {
    pub token: Option<Result<TokenModel, LexError>>,
    pub pos: int,
    pub line: int,
}

/// The bytes of the version keyword `TERO`.
pub open spec fn word_upper_tero() -> Seq<u8> {
    seq![0x54u8, 0x45, 0x52, 0x4f]
}

/// An ASCII letter.
pub open spec fn is_letter(b: u8) -> bool {
    (0x61 <= b <= 0x7a) || (0x41 <= b <= 0x5a)
}

/// The character that covers offset `p`: the one whose first byte is at
/// or before `p`.
pub open spec fn char_covering(s: Seq<u8>, p: int) -> char {
    crate::lexer::char_at(s, back_to_leading(s, p))
}

/// The first position at or after `pos` that starts a token: spaces, tabs,
/// carriage returns and comments (a `#` up to the line break) are passed
/// over.
pub open spec fn loom_skip(s: Seq<u8>, pos: int) -> int
    decreases s.len() - pos,
{
    if 0 <= pos < s.len() && is_version_space(s[pos]) {
        loom_skip(s, pos + 1)
    } else if 0 <= pos < s.len() && s[pos] == hash() {
        proof {
            lemma_line_end_bounds(s, pos + 1);
        }
        loom_skip(s, line_end(s, pos + 1))
    } else {
        pos
    }
}

/// The value of the digits of `s[start..end]` (separators left out),
/// computed in `i64` arithmetic that wraps around.
pub open spec fn loom_digits(s: Seq<u8>, start: int, end: int) -> i64
    decreases end - start,
{
    if end <= start {
        0
    } else if s[end - 1] == 0x5f {
        loom_digits(s, start, end - 1)
    } else {
        loom_digits(s, start, end - 1).wrapping_mul(10).wrapping_add((s[end - 1] - 0x30) as i64)
    }
}

/// The number whose first digit is at `p`: an integer, or a float when a
/// point follows the digits; a letter right after it is refused.
pub open spec fn loom_number(s: Seq<u8>, p: int, line: int) -> Step {
    let e = number_end(s, p + 1);
    let num = loom_digits(s, p, e);
    if e >= s.len() {
        Step { token: Some(Ok(TokenModel::Integer(num))), pos: e, line }
    } else if is_letter(s[e]) {
        Step { token: Some(Err(LexError::InvalidCharacter(char_covering(s, e)))), pos: e, line }
    } else if s[e] == 0x2e {
        let f = if e + 2 <= s.len() {
            number_end(s, e + 2)
        } else {
            s.len() as int
        };
        if f < s.len() && is_letter(s[f]) {
            Step { token: Some(Err(LexError::InvalidCharacter(char_covering(s, f)))), pos: f, line }
        } else {
            Step { token: Some(Ok(TokenModel::Float(num, e + 1, f))), pos: f, line }
        }
    } else {
        Step { token: Some(Ok(TokenModel::Integer(num))), pos: e, line }
    }
}

/// Scans the text of a string quoted by `q` from offset `i`: a `\`
/// escapes the byte after it; the closing quote ends the string (giving
/// the offset after it and whether an escape occurred); a line break or
/// the end of the input first leaves it unterminated, at the offset where
/// the scan stopped.
pub open spec fn loom_string(s: Seq<u8>, i: int, q: u8, escaped: bool) -> (Option<(int, bool)>, int)
    decreases s.len() - i,
{
    if i < 0 || i >= s.len() {
        (None, s.len() as int)
    } else if s[i] == backslash() {
        if i + 1 < s.len() && s[i + 1] != newline() {
            loom_string(s, i + 2, q, true)
        } else {
            (None, i + 1)
        }
    } else if s[i] == q {
        (Some((i + 1, escaped)), i + 1)
    } else if s[i] != newline() {
        loom_string(s, i + 1, q, escaped)
    } else {
        (None, i)
    }
}

/// The token a key-shaped word from `p` to `e` stands for.
pub open spec fn loom_word(s: Seq<u8>, p: int, e: int) -> TokenModel {
    let w = s.subrange(p, e);
    if w == word_true() {
        TokenModel::Boolean(true)
    } else if w == word_false() {
        TokenModel::Boolean(false)
    } else if w == word_nil() {
        TokenModel::Nil
    } else if w == word_nan() {
        TokenModel::NaN
    } else if w == word_infinity() {
        TokenModel::Infinity
    } else {
        TokenModel::Identifier(p, e)
    }
}

/// The token of one byte.
pub open spec fn loom_single(b: u8) -> Option<TokenModel> {
    if b == 0x7b {
        Some(TokenModel::LeftBrace)
    } else if b == 0x7d {
        Some(TokenModel::RightBrace)
    } else if b == 0x5b {
        Some(TokenModel::LeftBracket)
    } else if b == 0x5d {
        Some(TokenModel::RightBracket)
    } else if b == 0x3a {
        Some(TokenModel::Colon)
    } else if b == 0x2c {
        Some(TokenModel::Comma)
    } else if b == 0x2d {
        Some(TokenModel::Sub)
    } else {
        None
    }
}

/// The token that starts at `p`.
pub open spec fn loom_token_at(s: Seq<u8>, p: int, line: int) -> Step {
    let c = s[p];
    if c == newline() {
        Step { token: Some(Ok(TokenModel::Newline)), pos: p + 1, line: line + 1 }
    } else if is_ident_start(c) {
        let e = ident_end(s, p + 1);
        Step { token: Some(Ok(loom_word(s, p, e))), pos: e, line }
    } else if is_digit(c) {
        loom_number(s, p, line)
    } else if loom_single(c) is Some {
        Step { token: Some(Ok(loom_single(c)->0)), pos: p + 1, line }
    } else if c == 0x27 || c == 0x22 {
        match loom_string(s, p + 1, c, false) {
            (Some((end, escaped)), _) => Step {
                token: Some(
                    Ok(
                        if escaped {
                            TokenModel::Text(p + 1, end)
                        } else {
                            TokenModel::RawText(p + 1, end)
                        },
                    ),
                ),
                pos: end,
                line,
            },
            (None, stop) => Step { token: Some(Err(LexError::UnterminatedString)), pos: stop, line },
        }
    } else {
        Step { token: Some(Err(LexError::InvalidCharacter(char_covering(s, p)))), pos: p, line }
    }
}

/// The next token after offset `pos`, `line` lines in: blanks and comments
/// are skipped first, and the end of the input gives `None`.
pub open spec fn loom_next(s: Seq<u8>, pos: int, line: int) -> Step {
    let p = loom_skip(s, pos);
    if p >= s.len() {
        Step { token: None, pos: p, line }
    } else {
        loom_token_at(s, p, line)
    }
}

/// Reading the optional version line at offset `p`: `TERO` and the
/// version `0` pass over the whole line, its line break included (and
/// counted); any other version is refused, with the reading stopped at the
/// digit; `TERO` without a version is read again as a key. Gives the error,
/// if any, where reading goes on, and the line breaks passed.
pub open spec fn check_version_at(s: Seq<u8>, p: int) -> (Option<LexError>, int, int) {
    if p + 4 <= s.len() && s.subrange(p, p + 4) == word_upper_tero() {
        let q = skip_version_space(s, p + 4);
        if q < s.len() && is_digit(s[q]) {
            if s[q] != 0x30 {
                (Some(LexError::InvalidVersion), q, 0)
            } else if line_end(s, q) < s.len() {
                (None, line_end(s, q) + 1, 1)
            } else {
                (None, line_end(s, q), 0)
            }
        } else {
            (None, p, 0)
        }
    } else {
        (None, p, 0)
    }
}

/// Where reading starts in the document `s` (after the leading blanks and
/// the optional version line), and the line count there.
pub open spec fn loom_after_version(s: Seq<u8>) -> Result<(int, int), LexError> {
    match check_version_at(s, skip_version_space(s, 0)) {
        (Some(e), _, _) => Err(e),
        (None, q, lines) => Ok((q, 1 + lines)),
    }
}

pub proof fn lemma_loom_skip_bounds(s: Seq<u8>, pos: int)
    requires
        0 <= pos <= s.len(),
    ensures
        pos <= loom_skip(s, pos) <= s.len(),
    decreases s.len() - pos,
{
    if pos < s.len() && is_version_space(s[pos]) {
        lemma_loom_skip_bounds(s, pos + 1);
    } else if pos < s.len() && s[pos] == hash() {
        lemma_line_end_bounds(s, pos + 1);
        lemma_loom_skip_bounds(s, line_end(s, pos + 1));
    }
}

pub proof fn lemma_loom_string(s: Seq<u8>, i: int, q: u8, escaped: bool)
    requires
        0 <= i,
    ensures
        loom_string(s, i, q, escaped).0 matches Some((end, _)) ==> {
            &&& i < end <= s.len()
            &&& s[end - 1] == q
            &&& end == loom_string(s, i, q, escaped).1
        },
        i <= s.len() ==> i <= loom_string(s, i, q, escaped).1 <= s.len(),
    decreases s.len() - i,
{
    if i < s.len() {
        if s[i] == backslash() {
            if i + 1 < s.len() && s[i + 1] != newline() {
                lemma_loom_string(s, i + 2, q, true);
            }
        } else if s[i] != q && s[i] != newline() {
            lemma_loom_string(s, i + 1, q, escaped);
        }
    }
}

/// Reading a token moves forward, stays in the document, counts lines,
/// and a token is handed out only after a byte was read.
pub proof fn lemma_loom_next(s: Seq<u8>, pos: int, line: int)
    requires
        0 <= pos <= s.len(),
    ensures
        pos <= loom_next(s, pos, line).pos <= s.len(),
        line <= loom_next(s, pos, line).line <= line + (loom_next(s, pos, line).pos - pos),
        loom_next(s, pos, line).token matches Some(Ok(_)) ==> loom_next(s, pos, line).pos > pos,
        loom_next(s, pos, line).token is None ==> loom_next(s, pos, line).pos == s.len(),
        loom_next(s, pos, line).token matches Some(Ok(m)) ==> model_ok(s, m),
{
    let p = loom_skip(s, pos);
    lemma_loom_skip_bounds(s, pos);
    if p < s.len() {
        let c = s[p];
        if is_ident_start(c) {
            lemma_ident_end_bounds(s, p + 1);
        } else if is_digit(c) {
            let e = number_end(s, p + 1);
            lemma_number_end_bounds(s, p + 1);
            if e < s.len() && s[e] == 0x2e && e + 2 <= s.len() {
                lemma_number_end_bounds(s, e + 2);
            }
        } else if c == 0x27 || c == 0x22 {
            lemma_loom_string(s, p + 1, c, false);
        }
    }
}

/// The cursor of the lexer over the document, with the line counts.
pub struct IterToken<'a> {
    src: Src<'a>,
    consum_line: u32,
    line: u32,
}

/// The observable state of an `IterToken`: the read position, the line
/// count, and the line of the token handed out last (kept by `Lexer`).
pub struct IterState {
    pub pos: int,
    pub line: u32,
    pub consum_line: u32,
}

impl<'a> View for IterToken<'a> {
    type V = IterState;

    closed spec fn view(&self) -> IterState {
        IterState { pos: self.src.pos(), line: self.line, consum_line: self.consum_line }
    }
}

impl<'a> IterToken<'a> {
    /// The bytes of the document.
    pub closed spec fn input(&self) -> Seq<u8> {
        self.src.input()
    }

    /// The invariant: the cursor lies in the document, and the line count
    /// is at least 1 and at most one more than the bytes read.
    pub closed spec fn wf(&self) -> bool {
        &&& self.src.wf()
        &&& 1 <= self.line <= self.src.pos() + 1
        &&& self.consum_line <= self.line
    }

    /// A cursor at the start of `input`, past its leading spaces, tabs and
    /// carriage returns.
    pub fn new(input: &'a str) -> (r: Self)
        requires
            input.spec_bytes().len() < u32::MAX,
        ensures
            r.wf(),
            r.input() == input.spec_bytes(),
            r@ == (IterState { pos: skip_version_space(input.spec_bytes(), 0), line: 1, consum_line: 1 }),
    {
        let mut iter = IterToken { src: Src::new(input, false), consum_line: 1, line: 1 };
        iter.start_trim();
        iter
    }

    /// The number of bytes left.
    pub(crate) fn len(&self) -> (r: usize)
        requires
            self.wf(),
        ensures
            r == self.input().len() - self@.pos,
    {
        self.src.len()
    }

    /// True when a block of 16 bytes is left.
    pub(crate) fn is_simd(&self) -> (r: bool)
        requires
            self.wf(),
        ensures
            r == (self@.pos + 16 <= self.input().len()),
    {
        self.is_size(16)
    }

    /// True when at least `b` bytes are left.
    pub(crate) fn is_size(&self, b: usize) -> (r: bool)
        requires
            self.wf(),
        ensures
            r == (self@.pos + b <= self.input().len()),
    {
        self.src.is_size(b)
    }

    /// True when bytes are left.
    pub(crate) fn is_not_empty(&self) -> (r: bool)
        requires
            self.wf(),
        ensures
            r == (self@.pos < self.input().len()),
    {
        self.src.is_not_empty()
    }

    /// True when no byte is left.
    pub(crate) fn is_empty(&self) -> (r: bool)
        requires
            self.wf(),
        ensures
            r == (self@.pos >= self.input().len()),
    {
        self.src.is_empty()
    }

    /// Moves the cursor `bytes` bytes forward.
    fn consume(&mut self, bytes: usize)
        requires
            old(self).wf(),
            old(self)@.pos + bytes <= old(self).input().len(),
        ensures
            final(self).wf(),
            final(self).input() == old(self).input(),
            final(self)@ == (IterState { pos: old(self)@.pos + bytes, ..old(self)@ }),
    {
        self.src.advance(bytes);
    }

    /// Moves the cursor `bytes` bytes back, keeping the line count valid.
    fn sub(&mut self, bytes: usize)
        requires
            old(self).wf(),
            old(self)@.pos >= bytes,
            old(self).line <= old(self)@.pos - bytes + 1,
        ensures
            final(self).wf(),
            final(self).input() == old(self).input(),
            final(self)@ == (IterState { pos: old(self)@.pos - bytes, ..old(self)@ }),
    {
        self.src.retreat(bytes);
    }

    /// The byte at the cursor.
    fn get_unchecked(&self) -> (r: u8)
        requires
            self.wf(),
            self@.pos < self.input().len(),
        ensures
            r == self.input()[self@.pos],
    {
        self.src.get_byte_unchecked()
    }

    /// Moves over the bytes before the first one for which `stop` holds.
    pub(crate) fn iter_char<F: Fn(u8) -> bool>(&mut self, stop: F)
        requires
            old(self).wf(),
            forall|b: u8| call_requires(stop, (b,)),
        ensures
            final(self).wf(),
            final(self).input() == old(self).input(),
            final(self)@.line == old(self)@.line,
            final(self)@.consum_line == old(self)@.consum_line,
            old(self)@.pos <= final(self)@.pos <= final(self).input().len(),
            forall|i: int|
                old(self)@.pos <= i < final(self)@.pos ==> call_ensures(
                    stop,
                    (old(self).input()[i],),
                    false,
                ),
            final(self)@.pos < final(self).input().len() ==> call_ensures(
                stop,
                (old(self).input()[final(self)@.pos],),
                true,
            ),
    {
        let ghost start = self@.pos;
        while self.is_not_empty()
            invariant_except_break
                forall|i: int|
                    start <= i < self@.pos ==> call_ensures(stop, (old(self).input()[i],), false),
            invariant
                self.wf(),
                self.input() == old(self).input(),
                self@.line == old(self)@.line,
                self@.consum_line == old(self)@.consum_line,
                start == old(self)@.pos,
                start <= self@.pos <= self.input().len(),
                forall|b: u8| call_requires(stop, (b,)),
            ensures
                forall|i: int|
                    start <= i < self@.pos ==> call_ensures(stop, (old(self).input()[i],), false),
                self@.pos < self.input().len() ==> call_ensures(
                    stop,
                    (old(self).input()[self@.pos],),
                    true,
                ),
            decreases self.input().len() - self@.pos,
        {
            let l = self.get_unchecked();
            if stop(l) {
                break;
            }
            self.consume(1);
        }
    }

    /// Moves over spaces, tabs and carriage returns.
    pub fn start_trim(&mut self)
        requires
            old(self).wf(),
        ensures
            final(self).wf(),
            final(self).input() == old(self).input(),
            final(self)@ == (IterState {
                pos: skip_version_space(old(self).input(), old(self)@.pos),
                ..old(self)@
            }),
    {
        let ghost s = self.input();
        let ghost p = self@.pos;
        self.iter_char(|ch: u8| -> (r: bool)
            ensures
                r == !is_version_space(ch),
            { !(ch == 0x20 || ch == 0x09 || ch == 0x0d) });
        proof {
            lemma_skip_version_space_is_first(s, p, self@.pos);
        }
    }

    /// True when the document goes on with `TERO` at the cursor.
    pub fn start_tero(&mut self) -> (r: bool)
        requires
            old(self).wf(),
        ensures
            *final(self) == *old(self),
            r == (old(self)@.pos + 4 <= old(self).input().len() && old(self).input().subrange(
                old(self)@.pos,
                old(self)@.pos + 4,
            ) == word_upper_tero()),
    {
        let ghost s = self.input();
        let ghost p = self@.pos;
        if !self.is_size(4) {
            return false;
        }
        let bytes = self.src.bytes();
        let c = self.src.curr();
        let r = bytes[c] == 0x54 && bytes[c + 1] == 0x45 && bytes[c + 2] == 0x52 && bytes[c + 3] == 0x4f;
        proof {
            if r {
                assert(s.subrange(p, p + 4) =~= word_upper_tero());
            } else {
                if s.subrange(p, p + 4) == word_upper_tero() {
                    assert(s.subrange(p, p + 4)[0] == s[p]);
                    assert(s.subrange(p, p + 4)[1] == s[p + 1]);
                    assert(s.subrange(p, p + 4)[2] == s[p + 2]);
                    assert(s.subrange(p, p + 4)[3] == s[p + 3]);
                }
            }
        }
        r
    }

    /// Reads the optional version line at the cursor: `TERO 0` is passed
    /// over with its line break; any other version is refused.
    pub fn checkversion(&mut self) -> (r: Result<(), LexError>)
        requires
            old(self).wf(),
        ensures
            final(self).wf(),
            final(self).input() == old(self).input(),
            final(self)@.consum_line == old(self)@.consum_line,
            (match r {
                Ok(()) => None,
                Err(e) => Some(e),
            }, final(self)@.pos, final(self)@.line - old(self)@.line) == check_version_at(
                old(self).input(),
                old(self)@.pos,
            ),
    {
        let ghost s = self.input();
        let curr = self.src.curr();
        if self.start_tero() {
            self.consume(4);
            self.start_trim();
            proof {
                lemma_skip_version_space_bounds(s, curr + 4);
            }
            if self.is_not_empty() {
                let d = self.get_unchecked();
                if 0x30 <= d && d <= 0x39 {
                    if d != 0x30 {
                        return Err(LexError::InvalidVersion);
                    }
                    self.ignore_line();
                    proof {
                        lemma_line_end_bounds(s, self@.pos);
                    }
                    if self.is_not_empty() {
                        self.consume(1);
                        self.line = self.line + 1;
                    }
                    return Ok(());
                }
            }
            let back = self.src.curr() - curr;
            self.sub(back);
        }
        Ok(())
    }

    /// Moves to the next line break, or to the end.
    pub(crate) fn ignore_line(&mut self)
        requires
            old(self).wf(),
        ensures
            final(self).wf(),
            final(self).input() == old(self).input(),
            final(self)@ == (IterState { pos: line_end(old(self).input(), old(self)@.pos), ..old(self)@ }),
    {
        let ghost s = self.input();
        let ghost p = self@.pos;
        self.iter_char(|ch: u8| -> (r: bool)
            ensures
                r == (ch == 0x0a),
            { ch == 0x0a });
        proof {
            lemma_line_end_is_first(s, p, self@.pos);
        }
    }
}


impl<'a> IterToken<'a> {
    /// Moves over the bytes for which `step` answers `Ok(false)`, stopping
    /// at the first one for which it answers `Ok(true)` (which is not
    /// passed) or an error (handed back, the cursor on that byte); at the
    /// end of the input it answers `Ok(false)`.
    pub(crate) fn iter_char_err<F: Fn(u8) -> Result<bool, LexError>>(&mut self, step: F) -> (r: Result<
        bool,
        LexError,
    >)
        requires
            old(self).wf(),
            forall|b: u8| call_requires(step, (b,)),
        ensures
            final(self).wf(),
            final(self).input() == old(self).input(),
            final(self)@.line == old(self)@.line,
            final(self)@.consum_line == old(self)@.consum_line,
            old(self)@.pos <= final(self)@.pos <= final(self).input().len(),
            forall|i: int|
                old(self)@.pos <= i < final(self)@.pos ==> call_ensures(
                    step,
                    (old(self).input()[i],),
                    Ok::<bool, LexError>(false),
                ),
            match r {
                Ok(true) => final(self)@.pos < final(self).input().len() && call_ensures(
                    step,
                    (old(self).input()[final(self)@.pos],),
                    Ok::<bool, LexError>(true),
                ),
                Ok(false) => final(self)@.pos == final(self).input().len(),
                Err(e) => final(self)@.pos < final(self).input().len() && call_ensures(
                    step,
                    (old(self).input()[final(self)@.pos],),
                    Err::<bool, LexError>(e),
                ),
            },
    {
        let ghost start = self@.pos;
        while self.is_not_empty()
            invariant
                self.wf(),
                self.input() == old(self).input(),
                self@.line == old(self)@.line,
                self@.consum_line == old(self)@.consum_line,
                start == old(self)@.pos,
                start <= self@.pos <= self.input().len(),
                forall|b: u8| call_requires(step, (b,)),
                forall|i: int|
                    start <= i < self@.pos ==> call_ensures(
                        step,
                        (old(self).input()[i],),
                        Ok::<bool, LexError>(false),
                    ),
            decreases self.input().len() - self@.pos,
        {
            let l = self.get_unchecked();
            match step(l) {
                Ok(true) => {
                    return Ok(true);
                },
                Ok(false) => {},
                Err(e) => {
                    return Err(e);
                },
            }
            self.consume(1);
        }
        Ok(false)
    }

    /// The character that covers offset `i` of the document.
    fn covering_char(&self, i: usize) -> (c: char)
        requires
            self.wf(),
            i < self.input().len(),
        ensures
            c == char_covering(self.input(), i as int),
    {
        let ghost s = self.input();
        let mut j = i;
        while 0 < j && 0x80 <= self.src.byte_at(j) && self.src.byte_at(j) <= 0xbf
            invariant
                self.wf(),
                s == self.input(),
                j <= i < s.len(),
                back_to_leading(s, j as int) == back_to_leading(s, i as int),
            decreases j,
        {
            j = j - 1;
        }
        proof {
            lemma_back_to_leading(s, i as int);
        }
        self.src.char_at(j)
    }

    /// Reads a key-shaped word whose first byte is just behind the cursor.
    pub(crate) fn ident(&mut self) -> (r: &'a str)
        requires
            old(self).wf(),
            1 <= old(self)@.pos <= old(self).input().len(),
            is_ident_start(old(self).input()[old(self)@.pos - 1]),
        ensures
            final(self).wf(),
            final(self).input() == old(self).input(),
            final(self)@ == (IterState {
                pos: ident_end(old(self).input(), old(self)@.pos),
                ..old(self)@
            }),
            r.spec_bytes() == old(self).input().subrange(
                old(self)@.pos - 1,
                ident_end(old(self).input(), old(self)@.pos),
            ),
    {
        let ghost s = self.input();
        let ghost p = self@.pos;
        let start = self.src.curr() - 1;
        self.iter_char(|ch: u8| -> (r: bool)
            ensures
                r == !is_ident_char(ch),
            {
                !((0x61 <= ch && ch <= 0x7a) || (0x41 <= ch && ch <= 0x5a) || (0x30 <= ch && ch
                    <= 0x39) || ch == 0x5f)
            });
        proof {
            lemma_ident_end_is_first(s, p, self@.pos);
            lemma_at_ascii_or_end(s, start as int);
            lemma_after_ascii(s, self@.pos);
        }
        self.src.slice(start, self.src.curr())
    }

    /// Reads a run of digits and `_` whose first digit is just behind the
    /// cursor.
    pub(crate) fn number(&mut self) -> (r: &'a str)
        requires
            old(self).wf(),
            1 <= old(self)@.pos <= old(self).input().len(),
            is_digit(old(self).input()[old(self)@.pos - 1]),
        ensures
            final(self).wf(),
            final(self).input() == old(self).input(),
            final(self)@ == (IterState {
                pos: number_end(old(self).input(), old(self)@.pos),
                ..old(self)@
            }),
            r.spec_bytes() == old(self).input().subrange(
                old(self)@.pos - 1,
                number_end(old(self).input(), old(self)@.pos),
            ),
    {
        let ghost s = self.input();
        let ghost p = self@.pos;
        let start = self.src.curr() - 1;
        self.scan_number_chars();
        proof {
            lemma_at_ascii_or_end(s, start as int);
            lemma_number_end_bounds(s, p);
            lemma_after_ascii(s, self@.pos);
        }
        self.src.slice(start, self.src.curr())
    }

    /// Moves over digits and `_`.
    fn scan_number_chars(&mut self)
        requires
            old(self).wf(),
        ensures
            final(self).wf(),
            final(self).input() == old(self).input(),
            final(self)@ == (IterState {
                pos: number_end(old(self).input(), old(self)@.pos),
                ..old(self)@
            }),
    {
        let ghost s = self.input();
        let ghost p = self@.pos;
        self.iter_char(|ch: u8| -> (r: bool)
            ensures
                r == !is_number_char(ch),
            { !((0x30 <= ch && ch <= 0x39) || ch == 0x5f) });
        proof {
            lemma_number_end_is_first(s, p, self@.pos);
        }
    }
}

impl<'a> IterToken<'a> {
    /// Reads a string literal whose opening quote `limit` is just behind
    /// the cursor: its text runs up to and including the closing quote.
    pub(crate) fn string(&mut self, limit: u8) -> (r: Result<Token<'a>, LexError>)
        requires
            old(self).wf(),
            1 <= old(self)@.pos <= old(self).input().len(),
            old(self).input()[old(self)@.pos - 1] == limit,
            limit == 0x27 || limit == 0x22,
        ensures
            final(self).wf(),
            final(self).input() == old(self).input(),
            final(self)@ == (IterState {
                pos: loom_string(old(self).input(), old(self)@.pos, limit, false).1,
                ..old(self)@
            }),
            match loom_string(old(self).input(), old(self)@.pos, limit, false).0 {
                Some((end, escaped)) => r matches Ok(t) && token_is(
                    old(self).input(),
                    t,
                    if escaped {
                        TokenModel::Text(old(self)@.pos, end)
                    } else {
                        TokenModel::RawText(old(self)@.pos, end)
                    },
                ),
                None => r == Err::<Token, LexError>(LexError::UnterminatedString),
            },
    {
        let ghost s = self.input();
        let start = self.src.curr();
        let mut escaped = false;
        loop
            invariant_except_break
                loom_string(s, self@.pos, limit, escaped) == loom_string(s, start as int, limit, false),
            invariant
                self.wf(),
                self.input() == s,
                s == old(self).input(),
                self@.line == old(self)@.line,
                self@.consum_line == old(self)@.consum_line,
                start == old(self)@.pos,
                start <= self@.pos <= s.len(),
                limit == 0x27 || limit == 0x22,
            ensures
                1 <= self@.pos,
                s[self@.pos - 1] == limit,
                loom_string(s, start as int, limit, false) == (Some((self@.pos, escaped)), self@.pos),
            decreases s.len() - self@.pos,
        {
            let ghost before = self@.pos;
            let stop = self.iter_char_err(|ch: u8| -> (r: Result<bool, LexError>)
                ensures
                    r == (if ch == limit || ch == 0x5c {
                        Ok::<bool, LexError>(true)
                    } else if ch == 0x0a {
                        Err::<bool, LexError>(LexError::UnterminatedString)
                    } else {
                        Ok::<bool, LexError>(false)
                    }),
                {
                    if ch == limit || ch == 0x5c {
                        Ok(true)
                    } else if ch == 0x0a {
                        Err(LexError::UnterminatedString)
                    } else {
                        Ok(false)
                    }
                });
            proof {
                lemma_loom_string_plain(s, before, self@.pos, limit, escaped);
            }
            match stop {
                Ok(true) => {},
                Ok(false) => {
                    return Err(LexError::UnterminatedString);
                },
                Err(e) => {
                    return Err(e);
                },
            }
            let ch = self.get_unchecked();
            if ch == 0x5c {
                escaped = true;
                self.consume(1);
                if self.is_not_empty() && self.get_unchecked() != 0x0a {
                    self.consume(1);
                } else {
                    return Err(LexError::UnterminatedString);
                }
            } else {
                self.consume(1);
                break;
            }
        }
        proof {
            lemma_after_ascii(s, start as int);
            lemma_after_ascii(s, self@.pos);
        }
        let text = self.src.slice(start, self.src.curr());
        if escaped {
            Ok(Token::Value(LoomValue::Raw(Literal::Text(text))))
        } else {
            Ok(Token::Value(LoomValue::Raw(Literal::RawText(text))))
        }
    }
}

impl<'a> IterToken<'a> {
    /// Reads a number whose first digit is just behind the cursor: an
    /// integer, or a float when a point follows the digits.
    pub(crate) fn as_number(&mut self) -> (r: Result<Token<'a>, LexError>)
        requires
            old(self).wf(),
            1 <= old(self)@.pos <= old(self).input().len(),
            is_digit(old(self).input()[old(self)@.pos - 1]),
        ensures
            final(self).wf(),
            final(self).input() == old(self).input(),
            final(self)@ == (IterState {
                pos: loom_number(old(self).input(), old(self)@.pos - 1, old(self)@.line as int).pos,
                ..old(self)@
            }),
            outcome_is(
                old(self).input(),
                Some(r),
                loom_number(old(self).input(), old(self)@.pos - 1, old(self)@.line as int).token,
            ),
    {
        let ghost s = self.input();
        let ghost p = self@.pos - 1;
        let text = self.number();
        let bytes = text.as_bytes();
        let ghost e = self@.pos;
        proof {
            lemma_number_end_bounds(s, p + 1);
        }
        let mut num: i64 = 0;
        let mut i: usize = 0;
        while i < bytes.len()
            invariant
                bytes@ == s.subrange(p, e),
                0 <= p < e <= s.len(),
                is_digit(s[p]),
                forall|k: int| p + 1 <= k < e ==> is_number_char(s[k]),
                i <= bytes.len(),
                num == loom_digits(s, p, p + i),
            decreases bytes.len() - i,
        {
            let ch = bytes[i];
            assert(ch == s[p + i]);
            if ch != 0x5f {
                num = num.wrapping_mul(10).wrapping_add((ch - 0x30) as i64);
            }
            i = i + 1;
        }
        if self.is_empty() {
            return Ok(Token::Value(LoomValue::Raw(Literal::Integer(num))));
        }
        let c = self.get_unchecked();
        if (0x61 <= c && c <= 0x7a) || (0x41 <= c && c <= 0x5a) {
            let ch = self.covering_char(self.src.curr());
            Err(LexError::InvalidCharacter(ch))
        } else if c == 0x2e {
            self.as_f64(num)
        } else {
            Ok(Token::Value(LoomValue::Raw(Literal::Integer(num))))
        }
    }

    /// Reads the fraction of a float whose point is at the cursor and
    /// whose integer digits are worth `num`.
    pub(crate) fn as_f64(&mut self, num: i64) -> (r: Result<Token<'a>, LexError>)
        requires
            old(self).wf(),
            old(self)@.pos < old(self).input().len(),
            old(self).input()[old(self)@.pos] == 0x2e,
        ensures
            final(self).wf(),
            final(self).input() == old(self).input(),
            ({
                let s = old(self).input();
                let e = old(self)@.pos;
                let f = if e + 2 <= s.len() {
                    number_end(s, e + 2)
                } else {
                    s.len() as int
                };
                &&& final(self)@ == (IterState { pos: f, ..old(self)@ })
                &&& if f < s.len() && is_letter(s[f]) {
                    r == Err::<Token, LexError>(LexError::InvalidCharacter(char_covering(s, f)))
                } else {
                    r matches Ok(t) && token_is(s, t, TokenModel::Float(num, e + 1, f))
                }
            }),
    {
        let ghost s = self.input();
        let e = self.src.curr();
        if self.is_size(2) {
            self.consume(2);
            self.scan_number_chars();
            proof {
                lemma_number_end_bounds(s, e + 2);
            }
        } else {
            let rest = self.len();
            self.consume(rest);
        }
        let f = self.src.curr();
        let fraction = vstd::slice::slice_subrange(self.src.bytes(), e + 1, f);
        if self.is_not_empty() {
            let c = self.get_unchecked();
            if (0x61 <= c && c <= 0x7a) || (0x41 <= c && c <= 0x5a) {
                let ch = self.covering_char(f);
                return Err(LexError::InvalidCharacter(ch));
            }
        }
        Ok(Token::Value(LoomValue::Raw(Literal::Float(FloatDigits { integer: num, fraction }))))
    }
}

impl<'a> IterToken<'a> {
    /// Reads the next token: blanks and comments are passed over, a line
    /// break is counted, and the end of the input gives `None`.
    pub(crate) fn next_interal(&mut self) -> (r: Option<Result<Token<'a>, LexError>>)
        requires
            old(self).wf(),
        ensures
            final(self).wf(),
            final(self).input() == old(self).input(),
            final(self)@ == (IterState {
                pos: loom_next(old(self).input(), old(self)@.pos, old(self)@.line as int).pos,
                line: loom_next(old(self).input(), old(self)@.pos, old(self)@.line as int).line as u32,
                consum_line: old(self)@.consum_line,
            }),
            outcome_is(
                old(self).input(),
                r,
                loom_next(old(self).input(), old(self)@.pos, old(self)@.line as int).token,
            ),
    {
        let ghost s = self.input();
        proof {
            lemma_loom_skip_bounds(s, self@.pos);
        }
        while self.is_not_empty()
            invariant
                self.wf(),
                self.input() == s,
                s == old(self).input(),
                self@.line == old(self)@.line,
                self@.consum_line == old(self)@.consum_line,
                old(self)@.pos <= self@.pos <= s.len(),
                loom_skip(s, self@.pos) == loom_skip(s, old(self)@.pos),
            decreases s.len() - self@.pos,
        {
            let ghost p = self@.pos;
            let ch = self.get_unchecked();
            self.consume(1);
            if ch == 0x20 || ch == 0x09 || ch == 0x0d {
                self.start_trim();
                proof {
                    lemma_loom_skip_version_space(s, p + 1);
                    lemma_skip_version_space_bounds(s, p + 1);
                }
                continue;
            }
            if ch == 0x23 {
                self.ignore_line();
                proof {
                    lemma_line_end_bounds(s, p + 1);
                }
                continue;
            }
            assert(loom_skip(s, p) == p);
            if ch == 0x0a {
                self.line = self.line + 1;
                return Some(Ok(Token::Newline));
            }
            if (0x61 <= ch && ch <= 0x7a) || (0x41 <= ch && ch <= 0x5a) || ch == 0x5f {
                let chars = self.ident();
                let w = chars.as_bytes();
                let w_true: [u8; 4] = [0x74, 0x72, 0x75, 0x65];
                let w_false: [u8; 5] = [0x66, 0x61, 0x6c, 0x73, 0x65];
                let w_nil: [u8; 3] = [0x6e, 0x69, 0x6c];
                let w_nan: [u8; 3] = [0x4e, 0x61, 0x4e];
                let w_infinity: [u8; 8] = [0x49, 0x6e, 0x66, 0x69, 0x6e, 0x69, 0x74, 0x79];
                proof {
                    assert(w_true@ =~= word_true());
                    assert(w_false@ =~= word_false());
                    assert(w_nil@ =~= word_nil());
                    assert(w_nan@ =~= word_nan());
                    assert(w_infinity@ =~= word_infinity());
                }
                let token = if same_bytes(w, &w_true) {
                    Token::Value(LoomValue::Raw(Literal::Boolean(true)))
                } else if same_bytes(w, &w_false) {
                    Token::Value(LoomValue::Raw(Literal::Boolean(false)))
                } else if same_bytes(w, &w_nil) {
                    Token::Value(LoomValue::Raw(Literal::Nil))
                } else if same_bytes(w, &w_nan) {
                    Token::Value(LoomValue::Raw(Literal::NaN))
                } else if same_bytes(w, &w_infinity) {
                    Token::Value(LoomValue::Raw(Literal::Infinity))
                } else {
                    Token::Identifier(chars)
                };
                return Some(Ok(token));
            }
            if 0x30 <= ch && ch <= 0x39 {
                return Some(self.as_number());
            }
            if ch == 0x7b {
                return Some(Ok(Token::LeftBrace));
            }
            if ch == 0x7d {
                return Some(Ok(Token::RightBrace));
            }
            if ch == 0x5b {
                return Some(Ok(Token::LeftBracket));
            }
            if ch == 0x5d {
                return Some(Ok(Token::RightBracket));
            }
            if ch == 0x3a {
                return Some(Ok(Token::Colon));
            }
            if ch == 0x2c {
                return Some(Ok(Token::Comma));
            }
            if ch == 0x2d {
                return Some(Ok(Token::Sub));
            }
            if ch == 0x27 || ch == 0x22 {
                proof {
                    lemma_loom_string(s, p + 1, ch, false);
                }
                return Some(self.string(ch));
            }
            self.sub(1);
            let c = self.covering_char(self.src.curr());
            return Some(Err(LexError::InvalidCharacter(c)));
        }
        None
    }

    /// Hands out the next token; see `next_interal`.
    pub fn next(&mut self) -> (r: Option<Result<Token<'a>, LexError>>)
        requires
            old(self).wf(),
        ensures
            final(self).wf(),
            final(self).input() == old(self).input(),
            final(self)@ == (IterState {
                pos: loom_next(old(self).input(), old(self)@.pos, old(self)@.line as int).pos,
                line: loom_next(old(self).input(), old(self)@.pos, old(self)@.line as int).line as u32,
                consum_line: old(self)@.consum_line,
            }),
            outcome_is(
                old(self).input(),
                r,
                loom_next(old(self).input(), old(self)@.pos, old(self)@.line as int).token,
            ),
    {
        self.next_interal()
    }
}

/// The observable state of a `Lexer`: the read position, the line count
/// after the peeked token, the line count after the token handed out last,
/// and the peeked result.
pub struct LoomState {
    pub pos: int,
    pub line: u32,
    pub consum_line: u32,
    pub peeked: Option<Result<TokenModel, LexError>>,
}

/// The state of a fresh lexer over `s`, or the error that refuses it.
pub open spec fn loom_start(s: Seq<u8>) -> Result<LoomState, LexError> {
    match loom_after_version(s) {
        Err(e) => Err(e),
        Ok((q, line)) => {
            let o = loom_next(s, q, line);
            Ok(LoomState { pos: o.pos, line: o.line as u32, consum_line: 1, peeked: o.token })
        },
    }
}

/// One call of `next`: the peeked result is handed out and the following
/// one is read; a peeked error is handed out again, with nothing changed.
pub open spec fn loom_step(s: Seq<u8>, st: LoomState) -> (Option<Result<TokenModel, LexError>>, LoomState) {
    if st.peeked matches Some(Err(_)) {
        (st.peeked, st)
    } else {
        let o = loom_next(s, st.pos, st.line as int);
        (
            st.peeked,
            LoomState { pos: o.pos, line: o.line as u32, consum_line: st.line, peeked: o.token },
        )
    }
}

/// A measure that every call of `next` handing out a token lowers.
pub open spec fn loom_progress(s: Seq<u8>, st: LoomState) -> int {
    2 * (s.len() - st.pos) + if st.peeked matches Some(Ok(_)) {
        1int
    } else {
        0int
    }
}

/// The offsets a token carries lie in the document, and a string's text
/// ends with its (ASCII) closing quote.
pub open spec fn model_ok(s: Seq<u8>, m: TokenModel) -> bool {
    match m {
        TokenModel::Float(_, a, b) => 0 <= a <= b <= s.len(),
        TokenModel::Text(a, b) => 0 <= a < b <= s.len() && s[b - 1] < 0x80,
        TokenModel::RawText(a, b) => 0 <= a < b <= s.len() && s[b - 1] < 0x80,
        TokenModel::Identifier(a, b) => 0 <= a <= b <= s.len(),
        _ => true,
    }
}

/// The invariant of a lexer state over `s`.
pub open spec fn loom_state_ok(s: Seq<u8>, st: LoomState) -> bool {
    &&& s.len() < u32::MAX
    &&& 0 <= st.pos <= s.len()
    &&& 1 <= st.line <= st.pos + 1
    &&& st.consum_line <= st.line
    &&& (st.peeked is None ==> st.pos == s.len())
    &&& (st.peeked matches Some(Ok(m)) ==> model_ok(s, m))
}

/// Calls of `next` until one hands out something other than a line break.
pub open spec fn loom_skip_lines(s: Seq<u8>, st: LoomState) -> (
    Option<Result<TokenModel, LexError>>,
    LoomState,
)
    decreases loom_progress(s, st),
    when loom_state_ok(s, st)
{
    let (r, st2) = loom_step(s, st);
    if r == Some(Ok::<TokenModel, LexError>(TokenModel::Newline)) {
        proof {
            lemma_loom_next(s, st.pos, st.line as int);
        }
        loom_skip_lines(s, st2)
    } else {
        (r, st2)
    }
}

/// `next` keeps the invariant and lowers the measure when it hands out a
/// token.
pub proof fn lemma_loom_step(s: Seq<u8>, st: LoomState)
    requires
        loom_state_ok(s, st),
    ensures
        loom_state_ok(s, loom_step(s, st).1),
        loom_progress(s, loom_step(s, st).1) <= loom_progress(s, st),
        loom_step(s, st).0 matches Some(Ok(_)) ==> loom_progress(s, loom_step(s, st).1)
            < loom_progress(s, st),
        loom_step(s, st).0 matches Some(Ok(m)) ==> model_ok(s, m),
{
    lemma_loom_next(s, st.pos, st.line as int);
}

/// `loom_skip_lines` keeps the invariant and never hands out a line break.
pub proof fn lemma_loom_skip_lines(s: Seq<u8>, st: LoomState)
    requires
        loom_state_ok(s, st),
    ensures
        loom_state_ok(s, loom_skip_lines(s, st).1),
        loom_skip_lines(s, st).0 != Some(Ok::<TokenModel, LexError>(TokenModel::Newline)),
        loom_progress(s, loom_skip_lines(s, st).1) <= loom_progress(s, st),
        loom_skip_lines(s, st).0 matches Some(Ok(_)) ==> loom_progress(s, loom_skip_lines(s, st).1)
            < loom_progress(s, st),
        loom_skip_lines(s, st).0 matches Some(Ok(m)) ==> model_ok(s, m),
    decreases loom_progress(s, st),
{
    lemma_loom_step(s, st);
    let (r, st2) = loom_step(s, st);
    if r == Some(Ok::<TokenModel, LexError>(TokenModel::Newline)) {
        lemma_loom_skip_lines(s, st2);
    }
}

/// A lexer over a document that keeps the next result ready, so that it
/// can be peeked at.
pub struct Lexer<'a> {
    iter: IterToken<'a>,
    next_token: Option<Result<Token<'a>, LexError>>,
    peeked: Ghost<Option<Result<TokenModel, LexError>>>,
}

impl<'a> View for Lexer<'a> {
    type V = LoomState;

    closed spec fn view(&self) -> LoomState {
        LoomState {
            pos: self.iter@.pos,
            line: self.iter@.line,
            consum_line: self.iter@.consum_line,
            peeked: self.peeked@,
        }
    }
}

impl<'a> Lexer<'a> {
    /// The bytes of the document.
    pub closed spec fn input(&self) -> Seq<u8> {
        self.iter.input()
    }

    /// The invariant: the peeked result is the one the state describes.
    pub closed spec fn wf(&self) -> bool {
        &&& self.iter.wf()
        &&& loom_state_ok(self.input(), self@)
        &&& outcome_is(self.input(), self.next_token, self.peeked@)
    }

    /// A lexer over `input`, after its optional version line; refused when
    /// the version line asks for a version other than 0.
    pub fn new(input: &'a str) -> (r: Result<Self, LexError>)
        requires
            input.spec_bytes().len() < u32::MAX,
        ensures
            match (r, loom_start(input.spec_bytes())) {
                (Ok(lex), Ok(st)) => lex.wf() && lex.input() == input.spec_bytes() && lex@ == st,
                (Err(e), Err(e2)) => e == e2,
                _ => false,
            },
    {
        let ghost s = input.spec_bytes();
        let mut iter = IterToken::new(input);
        proof {
            lemma_skip_version_space_bounds(s, 0);
        }
        match iter.checkversion() {
            Ok(()) => {},
            Err(e) => {
                return Err(e);
            },
        }
        proof {
            lemma_loom_next(s, iter@.pos, iter@.line as int);
        }
        let next_token = iter.next();
        let ghost start = loom_after_version(s)->Ok_0;
        Ok(Lexer { iter, next_token, peeked: Ghost(loom_next(s, start.0, start.1).token) })
    }

    /// The line of the token handed out last.
    pub fn line(&self) -> (r: u32)
        requires
            self.wf(),
        ensures
            r == self@.consum_line,
    {
        self.iter.consum_line
    }

    /// Hands out the peeked result and reads the following one; a peeked
    /// error is handed out again and again.
    pub fn next(&mut self) -> (r: Option<Result<Token<'a>, LexError>>)
        requires
            old(self).wf(),
        ensures
            final(self).wf(),
            final(self).input() == old(self).input(),
            outcome_is(old(self).input(), r, loom_step(old(self).input(), old(self)@).0),
            final(self)@ == loom_step(old(self).input(), old(self)@).1,
    {
        if let Some(Err(_)) = &self.next_token {
            return self.next_token;
        }
        proof {
            lemma_loom_next(self.input(), self.iter@.pos, self.iter@.line as int);
        }
        self.iter.consum_line = self.iter.line;
        let tk = self.iter.next_interal();
        let r = self.next_token;
        self.next_token = tk;
        self.peeked = Ghost(loom_next(old(self).input(), old(self)@.pos, old(self)@.line as int).token);
        r
    }

    /// Hands out the next result that is not a line break.
    pub fn next_skip_ln(&mut self) -> (r: Option<Result<Token<'a>, LexError>>)
        requires
            old(self).wf(),
        ensures
            final(self).wf(),
            final(self).input() == old(self).input(),
            outcome_is(old(self).input(), r, loom_skip_lines(old(self).input(), old(self)@).0),
            final(self)@ == loom_skip_lines(old(self).input(), old(self)@).1,
    {
        let ghost s = self.input();
        loop
            invariant
                self.wf(),
                self.input() == s,
                s == old(self).input(),
                loom_skip_lines(s, self@) == loom_skip_lines(s, old(self)@),
            decreases loom_progress(s, self@),
        {
            let ghost before = self@;
            proof {
                lemma_loom_step(s, self@);
            }
            let t = self.next();
            assert(loom_state_ok(s, before));
            match t {
                Some(Ok(Token::Newline)) => {},
                _ => {
                    return t;
                },
            }
        }
    }

    /// The result the next call of `next` hands out.
    pub fn peek(&self) -> (r: Option<Result<Token<'a>, LexError>>)
        requires
            self.wf(),
        ensures
            outcome_is(self.input(), r, self@.peeked),
    {
        self.next_token
    }
}

/// What the invariant of a lexer tells about its state.
pub broadcast proof fn lemma_loom_lexer_wf(lex: &Lexer)
    requires
        #[trigger] lex.wf(),
    ensures
        loom_state_ok(lex.input(), lex@),
{
}

/// Passing over version spaces first does not change where the next token
/// starts.
proof fn lemma_loom_skip_version_space(s: Seq<u8>, p: int)
    requires
        0 <= p <= s.len(),
    ensures
        loom_skip(s, skip_version_space(s, p)) == loom_skip(s, p),
    decreases s.len() - p,
{
    if p < s.len() && is_version_space(s[p]) {
        lemma_loom_skip_version_space(s, p + 1);
    }
}

/// Bytes that are neither the quote, nor an escape, nor a line break are
/// passed over by the string scan.
proof fn lemma_loom_string_plain(s: Seq<u8>, a: int, b: int, q: u8, escaped: bool)
    requires
        0 <= a <= b <= s.len(),
        forall|i: int| a <= i < b ==> s[i] != q && s[i] != backslash() && s[i] != newline(),
    ensures
        loom_string(s, a, q, escaped) == loom_string(s, b, q, escaped),
    decreases b - a,
{
    if a < b {
        lemma_loom_string_plain(s, a + 1, b, q, escaped);
    }
}

/// The end of a run of key characters, told by the bytes before and at it.
proof fn lemma_ident_end_is_first(s: Seq<u8>, p: int, q: int)
    requires
        0 <= p <= q <= s.len(),
        forall|i: int| p <= i < q ==> is_ident_char(s[i]),
        q < s.len() ==> !is_ident_char(s[q]),
    ensures
        ident_end(s, p) == q,
    decreases q - p,
{
    if p < q {
        lemma_ident_end_is_first(s, p + 1, q);
    }
}

/// The end of a run of digits, told by the bytes before and at it.
proof fn lemma_number_end_is_first(s: Seq<u8>, p: int, q: int)
    requires
        0 <= p <= q <= s.len(),
        forall|i: int| p <= i < q ==> is_number_char(s[i]),
        q < s.len() ==> !is_number_char(s[q]),
    ensures
        number_end(s, p) == q,
    decreases q - p,
{
    if p < q {
        lemma_number_end_is_first(s, p + 1, q);
    }
}

/// The first position at or after `p` that is not a version space, told
/// by the bytes before and at it.
proof fn lemma_skip_version_space_is_first(s: Seq<u8>, p: int, q: int)
    requires
        0 <= p <= q <= s.len(),
        forall|i: int| p <= i < q ==> is_version_space(s[i]),
        q < s.len() ==> !is_version_space(s[q]),
    ensures
        skip_version_space(s, p) == q,
    decreases q - p,
{
    if p < q {
        lemma_skip_version_space_is_first(s, p + 1, q);
    }
}

/// The first line break at or after `p`, told by the bytes before and at
/// it.
proof fn lemma_line_end_is_first(s: Seq<u8>, p: int, q: int)
    requires
        0 <= p <= q <= s.len(),
        forall|i: int| p <= i < q ==> s[i] != newline(),
        q < s.len() ==> s[q] == newline(),
    ensures
        line_end(s, p) == q,
    decreases q - p,
{
    if p < q {
        lemma_line_end_is_first(s, p + 1, q);
    }
}

} // verus!
