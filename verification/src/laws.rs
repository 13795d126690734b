//! Properties of the lexer, the parser and the readers that hold across
//! calls.
use vstd::prelude::*;
use crate::grammar::{
    skip_trim,
    skip_blank,
    skip_version_space,
    is_digit,
    line_end,
    hash,
    lemma_line_end_bounds,
};
use crate::token::{Token, LexError};
use crate::lexer::{
    LexerState,
    next_step,
    skip_newlines,
    state_ok,
    input_ok,
    token_in,
    after_version,
    start_state,
    word_tero,
    lex_next,
    lemma_next_step,
    lemma_lex_next,
};
use crate::parser::{EvalError, FieldValue, ScopeView, ArrayView, scope_next, array_next};
use crate::text_format::unescape;
use crate::deserialize::{Deserialize, int_reads, span_text};
use crate::value::Value;
use crate::loom_parser::{individual_value, LoomTrace, LoomFloatKind};
use crate::source::Span;
use crate::loom_lexer::{
    LoomState,
    TokenModel,
    loom_start,
    loom_step,
    loom_skip_lines,
    loom_state_ok,
    loom_next,
    model_ok,
    word_upper_tero,
    lemma_loom_skip_lines,
};

verus! {

/// Once the lexer has met an error, every later call of `next` hands out
/// that same error and changes nothing.
pub proof fn law_error_is_sticky(s: Seq<u8>, st: LexerState)
    requires
        st.peeked matches Some(Err(_)),
    ensures
        next_step(s, st) == (st.peeked, st),
        next_step(s, next_step(s, st).1) == next_step(s, st),
{
}

/// `next` hands out exactly the token that `peek` shows.
pub proof fn law_next_hands_out_peek(s: Seq<u8>, st: LexerState)
    ensures
        next_step(s, st).0 == st.peeked,
{
}

/// Every token the lexer hands out lies in the document: its spans cover
/// pieces of the text, and an integer literal is never negative.
pub proof fn law_tokens_lie_in_document(s: Seq<u8>, st: LexerState)
    requires
        input_ok(s),
        state_ok(s, st),
    ensures
        next_step(s, st).0 matches Some(Ok(t)) ==> token_in(t, s),
        skip_newlines(s, st).0 matches Some(Ok(t)) ==> token_in(t, s),
{
    crate::parser::lemma_skip_newlines_token(s, st);
}

/// A document is refused exactly when, after leading blanks, it starts
/// with `Tero`, spaces, and a digit other than `0`.
pub proof fn law_version_refusal(s: Seq<u8>)
    ensures
        start_state(s) is Err <==> {
            let p = skip_trim(s, 0);
            let q = skip_version_space(s, p + 4);
            &&& p + 4 <= s.len()
            &&& s.subrange(p, p + 4) == word_tero()
            &&& q < s.len()
            &&& is_digit(s[q])
            &&& s[q] != 0x30
        },
        start_state(s) matches Err(e) ==> e == LexError::InvalidVersion,
{
}

/// Once the object parser has ended (`next` gave `None`), every later call
/// gives `None` again.
pub proof fn law_object_end_is_final(s: Seq<u8>, sc: ScopeView, st: LexerState)
    requires
        input_ok(s),
        state_ok(s, st),
        scope_next(s, sc, st).0 is None,
    ensures
        scope_next(s, scope_next(s, sc, st).1, scope_next(s, sc, st).2).0 is None,
    decreases crate::lexer::progress(s, st),
{
    if !sc.closed {
        crate::lexer::lemma_skip_newlines(s, st);
        lemma_next_step(s, st);
        let (t, st2) = skip_newlines(s, st);
        match t {
            Some(Ok(Token::Comma)) => {
                law_object_end_is_final(s, sc, st2);
            },
            Some(Ok(Token::Newline)) => {
                law_object_end_is_final(s, sc, st2);
            },
            None => {
                // The end of the input: the lexer stays there.
                lemma_end_stays(s, st);
            },
            _ => {},
        }
    }
}

/// Once a braced object has read its closing brace, every later call of
/// `next` gives `None` and changes nothing, neither the parser's state nor
/// the lexer's.
pub proof fn law_closed_object_end_stays(s: Seq<u8>, sc: ScopeView, st: LexerState)
    requires
        input_ok(s),
        state_ok(s, st),
        sc.has_closed,
        scope_next(s, sc, st).0 is None,
    ensures
        scope_next(s, sc, st).1.closed,
        scope_next(s, scope_next(s, sc, st).1, scope_next(s, sc, st).2) == (
            None::<Result<crate::parser::Field, EvalError>>,
            scope_next(s, sc, st).1,
            scope_next(s, sc, st).2,
        ),
    decreases crate::lexer::progress(s, st),
{
    if !sc.closed {
        crate::lexer::lemma_skip_newlines(s, st);
        let (t, st2) = skip_newlines(s, st);
        match t {
            Some(Ok(Token::Comma)) => {
                law_closed_object_end_stays(s, sc, st2);
            },
            Some(Ok(Token::Newline)) => {
                law_closed_object_end_stays(s, sc, st2);
            },
            _ => {},
        }
    }
}

/// When `skip_newlines` reaches the end of the input, calling it again
/// reaches the end again.
proof fn lemma_end_stays(s: Seq<u8>, st: LexerState)
    requires
        input_ok(s),
        state_ok(s, st),
        skip_newlines(s, st).0 is None,
    ensures
        skip_newlines(s, skip_newlines(s, st).1).0 is None,
    decreases crate::lexer::progress(s, st),
{
    lemma_next_step(s, st);
    let (r, st2) = next_step(s, st);
    if r == Some(Ok::<Token, LexError>(Token::Newline)) {
        lemma_end_stays(s, st2);
    } else {
        // `next` handed out nothing: the lexer was at the end, and the
        // next read finds nothing either.
        lemma_lex_next(s, st.pos, st.nline as int);
        lemma_lex_next(s, st2.pos, st2.nline as int);
        lemma_next_step(s, st2);
    }
}

/// Once the array parser has read the closing bracket, every later call
/// of `next` gives `None` and changes nothing.
pub proof fn law_array_end_is_final(s: Seq<u8>, av: ArrayView, st: LexerState)
    requires
        input_ok(s),
        state_ok(s, st),
        array_next(s, av, st).0 is None,
    ensures
        array_next(s, array_next(s, av, st).1, array_next(s, av, st).2) == (
            None::<Result<FieldValue, EvalError>>,
            array_next(s, av, st).1,
            array_next(s, av, st).2,
        ),
{
    lemma_array_end_closes(s, av, st);
}

/// The array parser gives `None` only once the array is closed.
proof fn lemma_array_end_closes(s: Seq<u8>, av: ArrayView, st: LexerState)
    requires
        input_ok(s),
        state_ok(s, st),
        array_next(s, av, st).0 is None,
    ensures
        array_next(s, av, st).1.closed,
    decreases crate::lexer::progress(s, st),
{
    if !av.closed {
        lemma_next_step(s, st);
        let (t, st2) = next_step(s, st);
        match t {
            Some(Ok(Token::Comma)) => {
                lemma_array_end_closes(s, ArrayView { has_value: true, ..av }, st2);
            },
            Some(Ok(Token::Newline)) => {
                lemma_array_end_closes(s, ArrayView { has_value: true, ..av }, st2);
            },
            _ => {},
        }
    }
}

/// A text without backslashes has no escapes: unescaping leaves it as it is.
pub proof fn law_unescape_plain(cs: Seq<char>)
    requires
        !cs.contains('\\'),
    ensures
        unescape(cs) == cs,
    decreases cs.len(),
{
    if cs.len() > 0 {
        assert(cs[0] != '\\') by {
            assert(cs.contains(cs[0]));
        }
        assert(!cs.skip(1).contains('\\')) by {
            if cs.skip(1).contains('\\') {
                let i = choose|i: int| 0 <= i < cs.skip(1).len() && cs.skip(1)[i] == '\\';
                assert(cs[i + 1] == '\\');
            }
        }
        law_unescape_plain(cs.skip(1));
        assert(seq![cs[0]] + cs.skip(1) =~= cs);
    }
}

/// Unescaping never lengthens a text.
pub proof fn law_unescape_shortens(cs: Seq<char>)
    ensures
        unescape(cs).len() <= cs.len(),
    decreases cs.len(),
{
    if cs.len() > 0 {
        if cs[0] == '\\' && cs.len() >= 2 {
            law_unescape_shortens(cs.skip(2));
        } else {
            law_unescape_shortens(cs.skip(1));
        }
    }
}

/// An integer read into a type whose range is `lo..=hi` succeeds exactly
/// for an integer literal in that range, and overflows exactly for one
/// outside it.
pub proof fn law_int_range(value: FieldValue, lo: int, hi: int)
    ensures
        int_reads(value, lo, hi) is Ok <==> (value matches FieldValue::Literal(Token::Int(v)) && lo
            <= v <= hi),
        int_reads(value, lo, hi) == Err::<int, EvalError>(
            EvalError::Lexical(LexError::NumericOverflow),
        ) <==> (value matches FieldValue::Literal(Token::Int(v)) && !(lo <= v <= hi)),
        int_reads(value, lo, hi) matches Ok(v) ==> value == FieldValue::Literal(Token::Int(v as i64)),
{
}

/// Once the Loom lexer has met an error, every later call of `next` hands
/// out that same error and changes nothing.
pub proof fn law_loom_error_is_sticky(s: Seq<u8>, st: LoomState)
    requires
        st.peeked matches Some(Err(_)),
    ensures
        loom_step(s, st) == (st.peeked, st),
        loom_step(s, loom_step(s, st).1) == loom_step(s, st),
{
}

/// The Loom lexer's `next` hands out exactly what `peek` shows.
pub proof fn law_loom_next_hands_out_peek(s: Seq<u8>, st: LoomState)
    ensures
        loom_step(s, st).0 == st.peeked,
{
}

/// `next_skip_ln` of the Loom lexer never hands out a line break, and what
/// it hands out lies in the document.
pub proof fn law_loom_skip_lines(s: Seq<u8>, st: LoomState)
    requires
        loom_state_ok(s, st),
    ensures
        loom_skip_lines(s, st).0 != Some(Ok::<TokenModel, crate::loom_lexer::LexError>(TokenModel::Newline)),
        loom_skip_lines(s, st).0 matches Some(Ok(m)) ==> model_ok(s, m),
{
    lemma_loom_skip_lines(s, st);
}

/// A document is refused by the Loom lexer exactly when, after leading
/// spaces, tabs and carriage returns, it starts with `TERO`, spaces, and a
/// digit other than `0`.
pub proof fn law_loom_version_refusal(s: Seq<u8>)
    ensures
        loom_start(s) is Err <==> {
            let p = skip_version_space(s, 0);
            let q = skip_version_space(s, p + 4);
            &&& p + 4 <= s.len()
            &&& s.subrange(p, p + 4) == word_upper_tero()
            &&& q < s.len()
            &&& is_digit(s[q])
            &&& s[q] != 0x30
        },
        loom_start(s) matches Err(e) ==> e == crate::loom_lexer::LexError::InvalidVersion,
{
}

/// A comment has no effect: reading from a `#` gives what reading from
/// the end of its line gives.
pub proof fn law_comment_is_ignored(s: Seq<u8>, pos: int, line: int)
    requires
        0 <= pos < s.len(),
        s[pos] == hash(),
    ensures
        lex_next(s, pos, line) == lex_next(s, line_end(s, pos + 1), line),
        loom_next(s, pos, line) == loom_next(s, line_end(s, pos + 1), line),
{
    lemma_line_end_bounds(s, pos + 1);
}

/// Between tokens, a space, a tab, a carriage return (so a CRLF line end
/// reads as a line break) and a NUL byte are passed over: reading from such
/// a byte gives what reading from the next byte gives, and `Src::trim`
/// passes over it too.
pub proof fn law_blank_bytes_are_skipped(s: Seq<u8>, pos: int, line: int)
    requires
        0 <= pos < s.len(),
        s[pos] == 0x20 || s[pos] == 0x09 || s[pos] == 0x0d || s[pos] == 0x00,
    ensures
        skip_blank(s, pos) == skip_blank(s, pos + 1),
        lex_next(s, pos, line) == lex_next(s, pos + 1, line),
        skip_trim(s, pos) == skip_trim(s, pos + 1),
{
}

/// An open array where a value is allowed hands out the next token as an
/// element when it is a literal of any kind (an integer, a float, a
/// boolean, `nil`, or a string with or without escapes), and then wants a
/// separator.
pub proof fn law_array_hands_out_literals(s: Seq<u8>, av: ArrayView, st: LexerState, tk: Token)
    requires
        input_ok(s),
        state_ok(s, st),
        !av.closed,
        av.has_value,
        next_step(s, st).0 == Some(Ok::<Token, LexError>(tk)),
        tk is Int || tk is Float || tk is Boolean || tk is Nil || tk is Text || tk is RawText,
    ensures
        array_next(s, av, st).0 == Some(Ok::<FieldValue, EvalError>(FieldValue::Literal(tk))),
        array_next(s, av, st).2 == next_step(s, st).1,
        !array_next(s, av, st).1.has_value,
        !array_next(s, av, st).1.closed,
{
}

/// A string read into a `Value` is the string that reading it into a
/// `String` gives: its text as written, with its escapes replaced when it
/// has any.
pub proof fn law_value_string_is_string(
    s: Seq<u8>,
    sp: Span,
    escaped: bool,
    st: LexerState,
    r: Result<Value, EvalError>,
    st2: LexerState,
    q: Result<String, EvalError>,
    st3: LexerState,
)
    requires
        <Value as Deserialize>::reads(
            s,
            FieldValue::Literal(if escaped { Token::Text(sp) } else { Token::RawText(sp) }),
            st,
            r,
            st2,
        ),
        <String as Deserialize>::reads(
            s,
            FieldValue::Literal(if escaped { Token::Text(sp) } else { Token::RawText(sp) }),
            st,
            q,
            st3,
        ),
    ensures
        r is Ok <==> q is Ok,
        r matches Ok(v) ==> (v matches Value::String(x) && q matches Ok(y) && x@ == y@),
        r matches Ok(v) ==> (v matches Value::String(x) && x@ == if escaped {
            unescape(span_text(s, sp))
        } else {
            span_text(s, sp)
        }),
        st2 == st3,
{
    if r is Ok {
        let fv = FieldValue::Literal(if escaped { Token::Text(sp) } else { Token::RawText(sp) });
        let t = choose|t: crate::value::ValueTrace| #[trigger] crate::value::value_of_read(s, fv, st, r->Ok_0, t);
        assert(crate::value::value_of_read(s, fv, st, r->Ok_0, t));
    }
}

/// An integer literal read into `i8` succeeds exactly when it lies in
/// `i8::MIN..=i8::MAX`, giving the literal's value; outside that range
/// it is a numeric overflow. The lexer is not moved.
pub proof fn law_i8_range(s: Seq<u8>, v: i64, st: LexerState, r: Result<i8, EvalError>, st2: LexerState)
    requires
        <i8 as Deserialize>::reads(s, FieldValue::Literal(Token::Int(v)), st, r, st2),
    ensures
        st2 == st,
        r is Ok <==> i8::MIN <= v <= i8::MAX,
        r matches Ok(x) ==> x == v,
        r is Err ==> r == Err::<i8, EvalError>(EvalError::Lexical(LexError::NumericOverflow)),
{
}

/// An integer literal read into `i16` succeeds exactly when it lies in
/// `i16::MIN..=i16::MAX`, giving the literal's value; outside that range
/// it is a numeric overflow. The lexer is not moved.
pub proof fn law_i16_range(s: Seq<u8>, v: i64, st: LexerState, r: Result<i16, EvalError>, st2: LexerState)
    requires
        <i16 as Deserialize>::reads(s, FieldValue::Literal(Token::Int(v)), st, r, st2),
    ensures
        st2 == st,
        r is Ok <==> i16::MIN <= v <= i16::MAX,
        r matches Ok(x) ==> x == v,
        r is Err ==> r == Err::<i16, EvalError>(EvalError::Lexical(LexError::NumericOverflow)),
{
}

/// An integer literal read into `i32` succeeds exactly when it lies in
/// `i32::MIN..=i32::MAX`, giving the literal's value; outside that range
/// it is a numeric overflow. The lexer is not moved.
pub proof fn law_i32_range(s: Seq<u8>, v: i64, st: LexerState, r: Result<i32, EvalError>, st2: LexerState)
    requires
        <i32 as Deserialize>::reads(s, FieldValue::Literal(Token::Int(v)), st, r, st2),
    ensures
        st2 == st,
        r is Ok <==> i32::MIN <= v <= i32::MAX,
        r matches Ok(x) ==> x == v,
        r is Err ==> r == Err::<i32, EvalError>(EvalError::Lexical(LexError::NumericOverflow)),
{
}

/// An integer literal read into `i64` succeeds exactly when it lies in
/// `i64::MIN..=i64::MAX`, giving the literal's value; outside that range
/// it is a numeric overflow. The lexer is not moved.
pub proof fn law_i64_range(s: Seq<u8>, v: i64, st: LexerState, r: Result<i64, EvalError>, st2: LexerState)
    requires
        <i64 as Deserialize>::reads(s, FieldValue::Literal(Token::Int(v)), st, r, st2),
    ensures
        st2 == st,
        r is Ok <==> i64::MIN <= v <= i64::MAX,
        r matches Ok(x) ==> x == v,
        r is Err ==> r == Err::<i64, EvalError>(EvalError::Lexical(LexError::NumericOverflow)),
{
}

/// An integer literal read into `i128` succeeds exactly when it lies in
/// `i128::MIN..=i128::MAX`, giving the literal's value; outside that range
/// it is a numeric overflow. The lexer is not moved.
pub proof fn law_i128_range(s: Seq<u8>, v: i64, st: LexerState, r: Result<i128, EvalError>, st2: LexerState)
    requires
        <i128 as Deserialize>::reads(s, FieldValue::Literal(Token::Int(v)), st, r, st2),
    ensures
        st2 == st,
        r is Ok <==> i128::MIN <= v <= i128::MAX,
        r matches Ok(x) ==> x == v,
        r is Err ==> r == Err::<i128, EvalError>(EvalError::Lexical(LexError::NumericOverflow)),
{
}

/// An integer literal read into `isize` succeeds exactly when it lies in
/// `isize::MIN..=isize::MAX`, giving the literal's value; outside that range
/// it is a numeric overflow. The lexer is not moved.
pub proof fn law_isize_range(s: Seq<u8>, v: i64, st: LexerState, r: Result<isize, EvalError>, st2: LexerState)
    requires
        <isize as Deserialize>::reads(s, FieldValue::Literal(Token::Int(v)), st, r, st2),
    ensures
        st2 == st,
        r is Ok <==> isize::MIN <= v <= isize::MAX,
        r matches Ok(x) ==> x == v,
        r is Err ==> r == Err::<isize, EvalError>(EvalError::Lexical(LexError::NumericOverflow)),
{
}

/// An integer literal read into `u8` succeeds exactly when it lies in
/// `u8::MIN..=u8::MAX`, giving the literal's value; outside that range
/// it is a numeric overflow. The lexer is not moved.
pub proof fn law_u8_range(s: Seq<u8>, v: i64, st: LexerState, r: Result<u8, EvalError>, st2: LexerState)
    requires
        <u8 as Deserialize>::reads(s, FieldValue::Literal(Token::Int(v)), st, r, st2),
    ensures
        st2 == st,
        r is Ok <==> u8::MIN <= v <= u8::MAX,
        r matches Ok(x) ==> x == v,
        r is Err ==> r == Err::<u8, EvalError>(EvalError::Lexical(LexError::NumericOverflow)),
{
}

/// An integer literal read into `u16` succeeds exactly when it lies in
/// `u16::MIN..=u16::MAX`, giving the literal's value; outside that range
/// it is a numeric overflow. The lexer is not moved.
pub proof fn law_u16_range(s: Seq<u8>, v: i64, st: LexerState, r: Result<u16, EvalError>, st2: LexerState)
    requires
        <u16 as Deserialize>::reads(s, FieldValue::Literal(Token::Int(v)), st, r, st2),
    ensures
        st2 == st,
        r is Ok <==> u16::MIN <= v <= u16::MAX,
        r matches Ok(x) ==> x == v,
        r is Err ==> r == Err::<u16, EvalError>(EvalError::Lexical(LexError::NumericOverflow)),
{
}

/// An integer literal read into `u32` succeeds exactly when it lies in
/// `u32::MIN..=u32::MAX`, giving the literal's value; outside that range
/// it is a numeric overflow. The lexer is not moved.
pub proof fn law_u32_range(s: Seq<u8>, v: i64, st: LexerState, r: Result<u32, EvalError>, st2: LexerState)
    requires
        <u32 as Deserialize>::reads(s, FieldValue::Literal(Token::Int(v)), st, r, st2),
    ensures
        st2 == st,
        r is Ok <==> u32::MIN <= v <= u32::MAX,
        r matches Ok(x) ==> x == v,
        r is Err ==> r == Err::<u32, EvalError>(EvalError::Lexical(LexError::NumericOverflow)),
{
}

/// An integer literal read into `u64` succeeds exactly when it lies in
/// `u64::MIN..=u64::MAX`, giving the literal's value; outside that range
/// it is a numeric overflow. The lexer is not moved.
pub proof fn law_u64_range(s: Seq<u8>, v: i64, st: LexerState, r: Result<u64, EvalError>, st2: LexerState)
    requires
        <u64 as Deserialize>::reads(s, FieldValue::Literal(Token::Int(v)), st, r, st2),
    ensures
        st2 == st,
        r is Ok <==> u64::MIN <= v <= u64::MAX,
        r matches Ok(x) ==> x == v,
        r is Err ==> r == Err::<u64, EvalError>(EvalError::Lexical(LexError::NumericOverflow)),
{
}

/// An integer literal read into `u128` succeeds exactly when it lies in
/// `u128::MIN..=u128::MAX`, giving the literal's value; outside that range
/// it is a numeric overflow. The lexer is not moved.
pub proof fn law_u128_range(s: Seq<u8>, v: i64, st: LexerState, r: Result<u128, EvalError>, st2: LexerState)
    requires
        <u128 as Deserialize>::reads(s, FieldValue::Literal(Token::Int(v)), st, r, st2),
    ensures
        st2 == st,
        r is Ok <==> u128::MIN <= v <= u128::MAX,
        r matches Ok(x) ==> x == v,
        r is Err ==> r == Err::<u128, EvalError>(EvalError::Lexical(LexError::NumericOverflow)),
{
}

/// An integer literal read into `usize` succeeds exactly when it lies in
/// `usize::MIN..=usize::MAX`, giving the literal's value; outside that range
/// it is a numeric overflow. The lexer is not moved.
pub proof fn law_usize_range(s: Seq<u8>, v: i64, st: LexerState, r: Result<usize, EvalError>, st2: LexerState)
    requires
        <usize as Deserialize>::reads(s, FieldValue::Literal(Token::Int(v)), st, r, st2),
    ensures
        st2 == st,
        r is Ok <==> usize::MIN <= v <= usize::MAX,
        r matches Ok(x) ==> x == v,
        r is Err ==> r == Err::<usize, EvalError>(EvalError::Lexical(LexError::NumericOverflow)),
{
}

/// In the Loom reading, a float literal where a value is due is read with
/// its sign as written: positive without a `-` before it, negative after
/// one, with the integer digits' value and the bytes after its point.
pub proof fn law_loom_float_sign(
    s: Seq<u8>,
    st: LoomState,
    v: crate::loom_parser::Value,
    t: LoomTrace,
    i: i64,
    a: int,
    b: int,
    minus: bool,
)
    requires
        loom_state_ok(s, st),
        individual_value(s, st, true, v, t),
        minus ==> loom_step(s, st).0 == Some(Ok::<TokenModel, crate::loom_lexer::LexError>(TokenModel::Sub)),
        minus ==> loom_step(s, loom_step(s, st).1).0 == Some(
            Ok::<TokenModel, crate::loom_lexer::LexError>(TokenModel::Float(i, a, b)),
        ),
        !minus ==> loom_step(s, st).0 == Some(
            Ok::<TokenModel, crate::loom_lexer::LexError>(TokenModel::Float(i, a, b)),
        ),
    ensures
        match v {
            crate::loom_parser::Value::Float(f) => f.negative == minus && match f.kind {
                LoomFloatKind::Digits { integer, fraction } => integer == i && fraction@
                    == s.subrange(a, b),
                _ => false,
            },
            _ => false,
        },
{
}

} // verus!
