//! The errors reported by `from_str`: what went wrong, with an excerpt of
//! the document and a caret under the place where it happened.
use vstd::prelude::*;
use crate::source::{Span, Location, lemma_src_wf, lemma_span_of_view, lemma_location_of_view};
use crate::token::{Token, LexError, FloatLiteral, FloatKind};
use crate::lexer::{Lexer, LexerState, lemma_lexer_wf};
use crate::parser::EvalError;
use crate::report::report_line;
use crate::text::{decimal, signed_decimal, digit_char, push_char, push_decimal, push_signed, digit_to_char};

verus! {

broadcast use {lemma_src_wf, lemma_lexer_wf, lemma_span_of_view, lemma_location_of_view};

/// The errors of reading a Tero document, each with the excerpt that shows
/// where it happened.
#[derive(Debug)]
pub enum TeroError {
    /// The document ended in the middle of a token or a block.
    UnexpectedEOF { found: String },
    /// A character that does not belong to the grammar.
    InvalidCharacter { found: String },
    /// A string literal left open.
    UnterminatedString { found: String },
    /// A number that does not fit the type it is read into.
    NumericOverflow { found: String },
    /// A key given twice in one object.
    DuplicateKey { found: String },
    /// A token that is not allowed where it was found.
    UnexpectedToken { found: String },
    /// A required field that the object does not give.
    MissingField { found: String },
    /// The version line asks for a version other than 0.
    InvalidVersion,
}

/// The contents of a `TeroError`: its kind and the text of its excerpt.
pub enum TeroReport {
    UnexpectedEOF(Seq<char>),
    InvalidCharacter(Seq<char>),
    UnterminatedString(Seq<char>),
    NumericOverflow(Seq<char>),
    DuplicateKey(Seq<char>),
    UnexpectedToken(Seq<char>),
    MissingField(Seq<char>),
    InvalidVersion,
}

impl View for TeroError {
    type V = TeroReport;

    open spec fn view(&self) -> TeroReport {
        match self {
            TeroError::UnexpectedEOF { found } => TeroReport::UnexpectedEOF(found@),
            TeroError::InvalidCharacter { found } => TeroReport::InvalidCharacter(found@),
            TeroError::UnterminatedString { found } => TeroReport::UnterminatedString(found@),
            TeroError::NumericOverflow { found } => TeroReport::NumericOverflow(found@),
            TeroError::DuplicateKey { found } => TeroReport::DuplicateKey(found@),
            TeroError::UnexpectedToken { found } => TeroReport::UnexpectedToken(found@),
            TeroError::MissingField { found } => TeroReport::MissingField(found@),
            TeroError::InvalidVersion => TeroReport::InvalidVersion,
        }
    }
}

/// `n` spaces (none when `n` is not positive).
pub open spec fn spaces(n: int) -> Seq<char> {
    Seq::new(
        if n > 0 {
            n as nat
        } else {
            0
        },
        |i: int| ' ',
    )
}

/// The excerpt for location `loc` on line `line`, a line break, and a caret
/// under the location, indented by its column less `first`.
pub open spec fn caret_excerpt(s: Seq<u8>, loc: int, line: u32, first: int) -> Seq<char> {
    match report_line(s, line, loc) {
        Some((left, text)) => text + seq!['\n'] + spaces(left - first) + seq!['^'],
        None => Seq::<char>::empty(),
    }
}

/// The `Debug` rendering of a string: between double quotes, with quotes,
/// backslashes and control characters escaped.
pub uninterp spec fn debug_quoted(s: Seq<char>) -> Seq<char>;

/// Renders `s` as `Debug` does.
///
/// Trusted: formats `s` with `{:?}` (the standard library's `Debug` for
/// `str`); the contract names the result and says nothing more of it.
#[verifier::external_body]
fn quote_debug(s: &str) -> (r: String)
    ensures
        r@ == debug_quoted(s@),
{
    format!("{:?}", s)
}

/// The text of a span as written by `Debug`:
/// `Span { start: Location(4), end: 9, line: 1 }`.
pub open spec fn span_debug(sp: Span) -> Seq<char> {
    "Span { start: Location("@ + decimal(sp@.start as nat) + "), end: "@ + decimal(sp@.end as nat)
        + ", line: "@ + decimal(sp@.line as nat) + " }"@
}

/// The bytes a span covers in `s`; nothing when it does not lie in `s`.
pub open spec fn span_bytes(s: Seq<u8>, sp: Span) -> Seq<u8> {
    if sp.spec_valid_in(s) {
        s.subrange(sp@.start as int, sp@.end as int)
    } else {
        Seq::<u8>::empty()
    }
}

/// The digits among `b`, as characters (separators and other bytes are
/// left out).
pub open spec fn digit_chars(b: Seq<u8>) -> Seq<char>
    decreases b.len(),
{
    if b.len() == 0 {
        Seq::<char>::empty()
    } else if 0x30 <= b.last() <= 0x39 {
        digit_chars(b.drop_last()).push(digit_char(b.last() - 0x30))
    } else {
        digit_chars(b.drop_last())
    }
}

/// The length of the shortest prefix of `b` that holds every non-zero
/// digit of `b`.
pub open spec fn significant_len(b: Seq<u8>) -> int
    decreases b.len(),
{
    if b.len() == 0 {
        0
    } else if 0x31 <= b.last() <= 0x39 {
        b.len() as int
    } else {
        significant_len(b.drop_last())
    }
}

/// The fraction digits of a float as `Debug` writes them: without
/// separators and trailing zeros, and `0` when none is left.
pub open spec fn fraction_text(b: Seq<u8>) -> Seq<char> {
    let d = digit_chars(b.subrange(0, significant_len(b)));
    if d.len() == 0 {
        seq!['0']
    } else {
        d
    }
}

/// A float literal written the way `Debug` writes its value: `inf`,
/// `NaN`, or the integer part, a point and the fraction digits.
pub open spec fn float_debug(s: Seq<u8>, f: FloatLiteral) -> Seq<char> {
    match f.kind {
        FloatKind::NaN => "NaN"@,
        FloatKind::Infinity => if f.negative {
            "-inf"@
        } else {
            "inf"@
        },
        FloatKind::Decimal { integer, fraction } => (if f.negative {
            "-"@
        } else {
            Seq::<char>::empty()
        }) + signed_decimal(integer as int) + "."@ + fraction_text(span_bytes(s, fraction)),
    }
}

/// A token written the way `Debug` writes it, such as
/// `RawText(Span { start: Location(4), end: 9, line: 1 })` or `Colon`.
pub open spec fn token_debug(s: Seq<u8>, t: Token) -> Seq<char> {
    match t {
        Token::Int(v) => "Int("@ + signed_decimal(v as int) + ")"@,
        Token::Float(f) => "Float("@ + float_debug(s, f) + ")"@,
        Token::RawText(sp) => "RawText("@ + span_debug(sp) + ")"@,
        Token::Text(sp) => "Text("@ + span_debug(sp) + ")"@,
        Token::Boolean(b) => if b {
            "Boolean(true)"@
        } else {
            "Boolean(false)"@
        },
        Token::Nil => "Nil"@,
        Token::Identifier(sp) => "Identifier("@ + span_debug(sp) + ")"@,
        Token::Colon => "Colon"@,
        Token::Comma => "Comma"@,
        Token::LeftBrace => "LeftBrace"@,
        Token::RightBrace => "RightBrace"@,
        Token::LeftBracket => "LeftBracket"@,
        Token::RightBracket => "RightBracket"@,
        Token::Newline => "Newline"@,
        Token::Sub => "Sub"@,
    }
}

/// The report for a lexical error met by a lexer in state `st` over `s`.
/// The excerpt points at the end of the token handed out last, or, for an
/// overflowing number, at the end of the one before it.
pub open spec fn lexical_report(s: Seq<u8>, st: LexerState, e: LexError) -> TeroReport {
    match e {
        LexError::InvalidVersion => TeroReport::InvalidVersion,
        LexError::UnexpectedEOF => TeroReport::UnexpectedEOF(
            caret_excerpt(s, st.end_token@ as int, st.line, 0) + " The file ended abruptly."@,
        ),
        LexError::InvalidCharacter(ch) => TeroReport::InvalidCharacter(
            caret_excerpt(s, st.end_token@ as int, st.line, 0) + " Invalid character: '"@ + seq![ch]
                + "'"@,
        ),
        LexError::UnterminatedString => TeroReport::UnterminatedString(
            caret_excerpt(s, st.end_token@ as int, st.line, 0) + " the string end is missing"@,
        ),
        LexError::NumericOverflow => TeroReport::NumericOverflow(
            caret_excerpt(s, st.prev_token@ as int, st.line, 0) + " Numeric overflow"@,
        ),
    }
}

/// The report for a parsing error met by a lexer in state `st` over `s`.
pub open spec fn eval_report(s: Seq<u8>, st: LexerState, e: EvalError) -> TeroReport {
    match e {
        EvalError::Lexical(l) => lexical_report(s, st, l),
        EvalError::DuplicateKey(span) => TeroReport::DuplicateKey(
            caret_excerpt(s, span@.start as int, span@.line, 0) + " Duplicate key"@,
        ),
        EvalError::UnexpectedToken(tk) => TeroReport::UnexpectedToken(
            caret_excerpt(s, st.prev_token@ as int, st.line, 0) + " Unexpected token: "@
                + token_debug(s, tk),
        ),
        EvalError::MissingField(name) => TeroReport::MissingField(
            caret_excerpt(s, st.prev_token@ as int, st.line, 0) + " Missing field: "@
                + debug_quoted(name@),
        ),
    }
}

/// The message of a report, as the error displays it.
pub open spec fn report_message(r: TeroReport) -> Seq<char> {
    match r {
        TeroReport::UnexpectedEOF(found) => "The file ended abruptly. \n"@ + found,
        TeroReport::InvalidCharacter(found) => "Invalid character. \n"@ + found,
        TeroReport::UnterminatedString(found) => "Unterminated String. \n"@ + found,
        TeroReport::NumericOverflow(found) => "Numeric Overfloow. \n"@ + found,
        TeroReport::DuplicateKey(found) => "Duplicate key. \n"@ + found,
        TeroReport::UnexpectedToken(found) => "Unexpected Token. \n"@ + found,
        TeroReport::MissingField(found) => "Missing field. \n"@ + found,
        TeroReport::InvalidVersion => "supports version 0"@,
    }
}

/// The excerpt for location `loc` on line `line` with a caret line under
/// it, the caret indented by the column less `first`.
fn get_string_err(lexer: &Lexer, loc: Location, line: u32, first: u32) -> (r: String)
    requires
        lexer.wf(),
        loc@ <= lexer.input().len(),
    ensures
        r@ == caret_excerpt(lexer.input(), loc@ as int, line, first as int),
{
    let ghost s = lexer.input();
    let (left, mut string) = match lexer.gen_error(loc, line) {
        Some(p) => p,
        None => {
            proof {
                assert(false);
            }
            (0, String::new())
        },
    };
    let ghost text = string@;
    push_char(&mut string, '\n');
    let mut i = first;
    while i < left
        invariant
            first <= i || i == first,
            first <= left ==> first <= i <= left,
            left < first ==> i == first,
            string@ == text + seq!['\n'] + spaces(i - first),
        decreases left - i,
    {
        let ghost prev = string@;
        push_char(&mut string, ' ');
        proof {
            assert(spaces(i + 1 - first) =~= spaces(i - first).push(' '));
            assert(string@ =~= text + seq!['\n'] + spaces(i + 1 - first));
        }
        i = i + 1;
    }
    proof {
        assert(spaces(i - first) =~= spaces(left - first));
    }
    push_char(&mut string, '^');
    proof {
        assert(string@ =~= text + seq!['\n'] + spaces(left - first) + seq!['^']);
    }
    string
}

/// The excerpt with its caret line for the start of `span`, on its line.
fn get_string_err_with_span(lexer: &Lexer, span: Span, first: u32) -> (r: String)
    requires
        lexer.wf(),
        span@.start <= lexer.input().len(),
    ensures
        r@ == caret_excerpt(lexer.input(), span@.start as int, span@.line, first as int),
{
    get_string_err(lexer, span.get_start(), span.line(), first)
}

/// Appends a span as `Debug` writes it.
fn push_span_debug(string: &mut String, sp: Span)
    ensures
        final(string)@ == old(string)@ + span_debug(sp),
{
    string.append("Span { start: Location(");
    push_decimal(string, sp.get_start().get_offset() as u64);
    string.append("), end: ");
    push_decimal(string, sp.get_end() as u64);
    string.append(", line: ");
    push_decimal(string, sp.line() as u64);
    string.append(" }");
    proof {
        assert(final(string)@ =~= old(string)@ + span_debug(sp));
    }
}

/// Appends the fraction digits of a float as `Debug` writes them.
fn push_fraction(string: &mut String, lexer: &Lexer, sp: Span)
    requires
        lexer.wf(),
    ensures
        final(string)@ == old(string)@ + fraction_text(span_bytes(lexer.input(), sp)),
{
    let ghost s = lexer.input();
    let ghost b = span_bytes(s, sp);
    let src = lexer.source();
    let (start, end): (usize, usize) = if sp.is_valid(lexer) {
        (sp.get_start().get_offset() as usize, sp.get_end() as usize)
    } else {
        (0, 0)
    };
    proof {
        if !sp.spec_valid_in(s) {
            assert(b =~= s.subrange(0, 0));
        }
    }
    assert(b =~= s.subrange(start as int, end as int));
    let mut sig: usize = start;
    let mut i: usize = start;
    while i < end
        invariant
            src.wf(),
            src.input() == s,
            start <= i <= end <= s.len(),
            b =~= s.subrange(start as int, end as int),
            start <= sig <= i,
            sig - start == significant_len(s.subrange(start as int, i as int)),
        decreases end - i,
    {
        let c = src.byte_at(i);
        proof {
            assert(s.subrange(start as int, i + 1).drop_last() =~= s.subrange(start as int, i as int));
        }
        if 0x31 <= c && c <= 0x39 {
            sig = i + 1;
        }
        i = i + 1;
    }
    assert(s.subrange(start as int, end as int) =~= b);
    assert(b.subrange(0, significant_len(b)) =~= s.subrange(start as int, sig as int));
    let ghost before = string@;
    let mut pushed = false;
    let mut j: usize = start;
    while j < sig
        invariant
            src.wf(),
            src.input() == s,
            start <= j <= sig <= s.len(),
            string@ == before + digit_chars(s.subrange(start as int, j as int)),
            pushed <==> digit_chars(s.subrange(start as int, j as int)).len() > 0,
        decreases sig - j,
    {
        let c = src.byte_at(j);
        proof {
            assert(s.subrange(start as int, j + 1).drop_last() =~= s.subrange(start as int, j as int));
        }
        if 0x30 <= c && c <= 0x39 {
            push_char(string, digit_to_char((c - 0x30) as u64));
            pushed = true;
        }
        j = j + 1;
    }
    if !pushed {
        push_char(string, '0');
    }
    proof {
        assert(final(string)@ =~= before + fraction_text(b));
    }
}

/// Appends the digits a span covers in the document, leaving out
/// separators and any other byte.
pub(crate) fn push_digits(string: &mut String, lexer: &Lexer, sp: Span)
    requires
        lexer.wf(),
    ensures
        final(string)@ == old(string)@ + digit_chars(span_bytes(lexer.input(), sp)),
{
    let ghost s = lexer.input();
    let ghost b = span_bytes(s, sp);
    let src = lexer.source();
    let (start, end): (usize, usize) = if sp.is_valid(lexer) {
        (sp.get_start().get_offset() as usize, sp.get_end() as usize)
    } else {
        (0, 0)
    };
    proof {
        if !sp.spec_valid_in(s) {
            assert(b =~= s.subrange(0, 0));
        }
    }
    assert(b =~= s.subrange(start as int, end as int));
    let ghost before = string@;
    let mut j: usize = start;
    while j < end
        invariant
            src.wf(),
            src.input() == s,
            start <= j <= end <= s.len(),
            string@ == before + digit_chars(s.subrange(start as int, j as int)),
        decreases end - j,
    {
        let c = src.byte_at(j);
        proof {
            assert(s.subrange(start as int, j + 1).drop_last() =~= s.subrange(start as int, j as int));
        }
        if 0x30 <= c && c <= 0x39 {
            push_char(string, digit_to_char((c - 0x30) as u64));
        }
        j = j + 1;
    }
}

/// Appends a float literal as `Debug` writes its value.
fn push_float_debug(string: &mut String, lexer: &Lexer, f: FloatLiteral)
    requires
        lexer.wf(),
    ensures
        final(string)@ == old(string)@ + float_debug(lexer.input(), f),
{
    match f.kind {
        FloatKind::NaN => {
            string.append("NaN");
        },
        FloatKind::Infinity => {
            if f.negative {
                string.append("-inf");
            } else {
                string.append("inf");
            }
        },
        FloatKind::Decimal { integer, fraction } => {
            let ghost start = string@;
            if f.negative {
                string.append("-");
            }
            let ghost signed = string@;
            push_signed(string, integer);
            string.append(".");
            push_fraction(string, lexer, fraction);
            proof {
                assert(final(string)@ =~= start + float_debug(lexer.input(), f));
            }
        },
    }
}

/// Appends a token as `Debug` writes it.
fn push_token_debug(string: &mut String, lexer: &Lexer, tk: Token)
    requires
        lexer.wf(),
    ensures
        final(string)@ == old(string)@ + token_debug(lexer.input(), tk),
{
    let ghost start = string@;
    match tk {
        Token::Int(v) => {
            string.append("Int(");
            push_signed(string, v);
            string.append(")");
        },
        Token::Float(f) => {
            string.append("Float(");
            push_float_debug(string, lexer, f);
            string.append(")");
        },
        Token::RawText(sp) => {
            string.append("RawText(");
            push_span_debug(string, sp);
            string.append(")");
        },
        Token::Text(sp) => {
            string.append("Text(");
            push_span_debug(string, sp);
            string.append(")");
        },
        Token::Boolean(b) => {
            if b {
                string.append("Boolean(true)");
            } else {
                string.append("Boolean(false)");
            }
        },
        Token::Nil => {
            string.append("Nil");
        },
        Token::Identifier(sp) => {
            string.append("Identifier(");
            push_span_debug(string, sp);
            string.append(")");
        },
        Token::Colon => {
            string.append("Colon");
        },
        Token::Comma => {
            string.append("Comma");
        },
        Token::LeftBrace => {
            string.append("LeftBrace");
        },
        Token::RightBrace => {
            string.append("RightBrace");
        },
        Token::LeftBracket => {
            string.append("LeftBracket");
        },
        Token::RightBracket => {
            string.append("RightBracket");
        },
        Token::Newline => {
            string.append("Newline");
        },
        Token::Sub => {
            string.append("Sub");
        },
    }
    proof {
        assert(final(string)@ =~= start + token_debug(lexer.input(), tk));
    }
}

impl TeroError {
    /// The error for a lexical error met by `lexer`, with the excerpt at the
    /// place it points to.
    pub fn from_lexical(value: LexError, lexer: &Lexer) -> (r: Self)
        requires
            lexer.wf(),
        ensures
            r@ == lexical_report(lexer.input(), lexer@, value),
    {
        match value {
            LexError::InvalidVersion => TeroError::InvalidVersion,
            LexError::UnexpectedEOF => {
                let mut string = get_string_err(lexer, lexer.location(), lexer.line(), 0);
                string.append(" The file ended abruptly.");
                TeroError::UnexpectedEOF { found: string }
            },
            LexError::InvalidCharacter(ch) => {
                let mut string = get_string_err(lexer, lexer.location(), lexer.line(), 0);
                string.append(" Invalid character: '");
                let ghost before = string@;
                push_char(&mut string, ch);
                string.append("'");
                assert(string@ =~= before + seq![ch] + "'"@);
                TeroError::InvalidCharacter { found: string }
            },
            LexError::UnterminatedString => {
                let mut string = get_string_err(lexer, lexer.location(), lexer.line(), 0);
                string.append(" the string end is missing");
                TeroError::UnterminatedString { found: string }
            },
            LexError::NumericOverflow => {
                let mut string = get_string_err(lexer, lexer.prevlocation(), lexer.line(), 0);
                string.append(" Numeric overflow");
                TeroError::NumericOverflow { found: string }
            },
        }
    }

    /// The error for a parsing error met by `lexer`. A duplicate key is
    /// shown at its own span; the other errors at the end of the token
    /// before the last one handed out.
    pub fn from_eval(value: EvalError, lexer: &Lexer) -> (r: Self)
        requires
            lexer.wf(),
            value matches EvalError::DuplicateKey(span) ==> span@.start <= lexer.input().len(),
        ensures
            r@ == eval_report(lexer.input(), lexer@, value),
    {
        match value {
            EvalError::Lexical(lex) => TeroError::from_lexical(lex, lexer),
            EvalError::DuplicateKey(span) => {
                let mut string = get_string_err_with_span(lexer, span, 0);
                string.append(" Duplicate key");
                TeroError::DuplicateKey { found: string }
            },
            EvalError::UnexpectedToken(tk) => {
                let mut string = get_string_err(lexer, lexer.prevlocation(), lexer.line(), 0);
                string.append(" Unexpected token: ");
                push_token_debug(&mut string, lexer, tk);
                TeroError::UnexpectedToken { found: string }
            },
            EvalError::MissingField(field) => {
                let mut string = get_string_err(lexer, lexer.prevlocation(), lexer.line(), 0);
                string.append(" Missing field: ");
                let quoted = quote_debug(&field);
                string.append(quoted.as_str());
                TeroError::MissingField { found: string }
            },
        }
    }

    /// The error for a document whose version line is refused.
    pub fn invalid_version() -> (r: Self)
        ensures
            r@ == TeroReport::InvalidVersion,
    {
        TeroError::InvalidVersion
    }

    /// The message the error displays: what went wrong, then the excerpt.
    pub fn message(&self) -> (r: String)
        ensures
            r@ == report_message(self@),
    {
        let mut r = String::new();
        match self {
            TeroError::UnexpectedEOF { found } => {
                r.append("The file ended abruptly. \n");
                r.append(found.as_str());
            },
            TeroError::InvalidCharacter { found } => {
                r.append("Invalid character. \n");
                r.append(found.as_str());
            },
            TeroError::UnterminatedString { found } => {
                r.append("Unterminated String. \n");
                r.append(found.as_str());
            },
            TeroError::NumericOverflow { found } => {
                r.append("Numeric Overfloow. \n");
                r.append(found.as_str());
            },
            TeroError::DuplicateKey { found } => {
                r.append("Duplicate key. \n");
                r.append(found.as_str());
            },
            TeroError::UnexpectedToken { found } => {
                r.append("Unexpected Token. \n");
                r.append(found.as_str());
            },
            TeroError::MissingField { found } => {
                r.append("Missing field. \n");
                r.append(found.as_str());
            },
            TeroError::InvalidVersion => {
                r.append("supports version 0");
            },
        }
        r
    }
}

} // verus!
