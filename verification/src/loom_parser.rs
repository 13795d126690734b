//! The parser of the Loom reading of Tero: a document becomes an object of
//! values, read straight from the tokens of the Loom lexer.
use std::collections::BTreeMap;
use vstd::prelude::*;
use vstd::utf8::*;
use vstd::string::StringSliceAdditionalSpecFns;
use vstd::laws_cmp::obeys_cmp;
use crate::loom_lexer::{
    LexError,
    Literal,
    LoomValue,
    Token,
    TokenModel,
    Lexer,
    LoomState,
    token_is,
    token_chars,
    string_of,
    model_ok,
    loom_start,
    loom_step,
    loom_skip_lines,
    loom_progress,
    loom_state_ok,
    lemma_loom_step,
    lemma_loom_skip_lines,
    lemma_loom_lexer_wf,
};
use crate::text::signed_decimal;
use crate::text_format::unescape;
use crate::value::{inserted_all, entry_values, holds_entries, keys_read, lemma_inserted_all_push};
use crate::text::{key_seen, texts_of};
use crate::utf8_facts::lemma_ascii_byte_boundaries;

verus! {

broadcast use {encode_utf8_decode_utf8, encode_utf8_valid_utf8, lemma_loom_lexer_wf};

/// The errors of the parser.
#[derive(Debug, PartialEq)]
pub enum LoomError {
    /// The lexer refused the document.
    Lexical(LexError),
    /// The document ended inside an object or an array, or where a value
    /// was due.
    UnexpectedEOF,
    /// A token out of place, as it is written.
    UnexpectedToken(String),
    /// A float out of place: the value of its integer digits and the bytes
    /// after its point.
    UnexpectedFloat { integer: i64, fraction: Vec<u8> },
    /// A key given twice in one object, as it is written.
    DuplicateKey(String),
}

/// An error of the parser, with its text as characters.
pub enum LoomFault {
    Lexical(LexError),
    UnexpectedEOF,
    UnexpectedToken(Seq<char>),
    UnexpectedFloat(i64, Seq<u8>),
    DuplicateKey(Seq<char>),
}

impl View for LoomError {
    type V = LoomFault;

    open spec fn view(&self) -> LoomFault {
        match self {
            LoomError::Lexical(e) => LoomFault::Lexical(*e),
            LoomError::UnexpectedEOF => LoomFault::UnexpectedEOF,
            LoomError::UnexpectedToken(t) => LoomFault::UnexpectedToken(t@),
            LoomError::UnexpectedFloat { integer, fraction } => LoomFault::UnexpectedFloat(
                *integer,
                fraction@,
            ),
            LoomError::DuplicateKey(k) => LoomFault::DuplicateKey(k@),
        }
    }
}

/// The magnitude of a float: its integer digits' value and the bytes after
/// its point, `NaN`, or `Infinity`.
#[derive(Debug, PartialEq)]
pub enum LoomFloatKind {
    Digits { integer: i64, fraction: Vec<u8> },
    NaN,
    Infinity,
}

/// A float: its sign and its magnitude.
#[derive(Debug, PartialEq)]
pub struct LoomFloat {
    pub negative: bool,
    pub kind: LoomFloatKind,
}

/// Any value of a document.
#[derive(Debug, PartialEq)]
pub enum Value {
    /// `nil`.
    Nil,
    /// `true` or `false`.
    Boolean(bool),
    /// A float, `NaN` or `Infinity`.
    Float(LoomFloat),
    /// An integer.
    Integer(i64),
    /// A string.
    String(String),
    /// An array.
    Array(Vec<Value>),
    /// An object: its entries by key.
    Object(BTreeMap<String, Value>),
}

/// How a token is written in an error: its text, with `inf` for
/// `Infinity` and `\n` for a line break.
pub open spec fn token_text(s: Seq<u8>, m: TokenModel) -> Seq<char> {
    match m {
        TokenModel::Integer(i) => signed_decimal(i as int),
        TokenModel::Float(_, _, _) => Seq::empty(),
        TokenModel::Text(a, b) => decode_utf8(s.subrange(a, b)),
        TokenModel::RawText(a, b) => decode_utf8(s.subrange(a, b)),
        TokenModel::Identifier(a, b) => decode_utf8(s.subrange(a, b)),
        TokenModel::Boolean(b) => if b {
            seq!['t', 'r', 'u', 'e']
        } else {
            seq!['f', 'a', 'l', 's', 'e']
        },
        TokenModel::Nil => seq!['n', 'i', 'l'],
        TokenModel::NaN => seq!['N', 'a', 'N'],
        TokenModel::Infinity => seq!['i', 'n', 'f'],
        TokenModel::Colon => seq![':'],
        TokenModel::Comma => seq![','],
        TokenModel::LeftBrace => seq!['{'],
        TokenModel::RightBrace => seq!['}'],
        TokenModel::LeftBracket => seq!['['],
        TokenModel::RightBracket => seq![']'],
        TokenModel::Newline => seq!['\\', 'n'],
        TokenModel::Sub => seq!['-'],
    }
}

/// The error for the token `m` found out of place.
pub open spec fn unexpected(s: Seq<u8>, m: TokenModel) -> LoomFault {
    match m {
        TokenModel::Float(i, a, b) => LoomFault::UnexpectedFloat(i, s.subrange(a, b)),
        _ => LoomFault::UnexpectedToken(token_text(s, m)),
    }
}

/// A token that stands for a value.
pub open spec fn is_value_model(m: TokenModel) -> bool {
    match m {
        TokenModel::Integer(_) => true,
        TokenModel::Float(_, _, _) => true,
        TokenModel::Text(_, _) => true,
        TokenModel::RawText(_, _) => true,
        TokenModel::Boolean(_) => true,
        TokenModel::Nil => true,
        TokenModel::NaN => true,
        TokenModel::Infinity => true,
        _ => false,
    }
}

/// `v` is the float with the given sign, integer digits' value and bytes
/// after the point.
pub open spec fn digits_value(v: Value, negative: bool, i: i64, fraction: Seq<u8>) -> bool {
    match v {
        Value::Float(f) => f.negative == negative && match f.kind {
            LoomFloatKind::Digits { integer, fraction: d } => integer == i && d@ == fraction,
            _ => false,
        },
        _ => false,
    }
}

/// `v` is the value that the value token `m` stands for: a string drops
/// its closing quote, and a string with escapes has them replaced.
pub open spec fn plain_value(s: Seq<u8>, m: TokenModel, v: Value) -> bool {
    match m {
        TokenModel::Integer(i) => v == Value::Integer(i),
        TokenModel::Float(i, a, b) => digits_value(v, false, i, s.subrange(a, b)),
        TokenModel::NaN => v matches Value::Float(f) && !f.negative && f.kind is NaN,
        TokenModel::Infinity => v matches Value::Float(f) && !f.negative && f.kind is Infinity,
        TokenModel::Nil => v == Value::Nil,
        TokenModel::Boolean(b) => v == Value::Boolean(b),
        TokenModel::RawText(a, b) => v matches Value::String(x) && x@ == decode_utf8(
            s.subrange(a, b - 1),
        ),
        TokenModel::Text(a, b) => v matches Value::String(x) && x@ == unescape(
            decode_utf8(s.subrange(a, b - 1)),
        ),
        _ => false,
    }
}

/// `v` is the value of `-` followed by the number `m`.
pub open spec fn negated_value(s: Seq<u8>, m: TokenModel, v: Value) -> bool {
    match m {
        TokenModel::Integer(i) => v == Value::Integer(0i64.wrapping_sub(i)),
        TokenModel::Float(i, a, b) => digits_value(v, true, i, s.subrange(a, b)),
        TokenModel::Infinity => v matches Value::Float(f) && f.negative && f.kind is Infinity,
        _ => false,
    }
}

/// What follows a `-`: a number is read, anything else is an error.
pub open spec fn negated_fault(s: Seq<u8>, r: Option<Result<TokenModel, LexError>>) -> Option<LoomFault> {
    match r {
        Some(Ok(TokenModel::Integer(_))) => None,
        Some(Ok(TokenModel::Float(_, _, _))) => None,
        Some(Ok(TokenModel::Infinity)) => None,
        Some(Ok(m)) => Some(unexpected(s, m)),
        Some(Err(e)) => Some(LoomFault::Lexical(e)),
        None => Some(LoomFault::UnexpectedEOF),
    }
}

/// Reading goes on from `mid`: it is a valid state no further from the end
/// than `st`.
pub open spec fn continues(s: Seq<u8>, mid: LoomState, st: LoomState) -> bool {
    loom_state_ok(s, mid) && loom_progress(s, mid) <= loom_progress(s, st)
}

/// Reading moved on from `st` to `mid`.
pub open spec fn advanced(s: Seq<u8>, mid: LoomState, st: LoomState) -> bool {
    loom_state_ok(s, mid) && loom_progress(s, mid) < loom_progress(s, st)
}

/// How reading one value from state `st` ends: the error that stops it
/// (`None` when it succeeds) and the state after it. Unless `values`, a
/// `:` must come first; `{` and `[` open an object and an array either
/// way.
pub open spec fn individual_outcome(s: Seq<u8>, st: LoomState, values: bool) -> (
    Option<LoomFault>,
    LoomState,
)
    decreases loom_progress(s, st), 0int,
    when loom_state_ok(s, st)
{
    proof {
        lemma_loom_step(s, st);
    }
    let (r, st1) = loom_step(s, st);
    match r {
        Some(Ok(TokenModel::Colon)) => if values {
            (Some(LoomFault::UnexpectedToken(seq![':'])), st1)
        } else {
            individual_outcome(s, st1, true)
        },
        Some(Ok(TokenModel::LeftBrace)) => block_outcome(s, st1, true, Seq::empty()),
        Some(Ok(TokenModel::LeftBracket)) => array_outcome(s, st1),
        Some(Ok(TokenModel::Sub)) => if !values {
            (Some(LoomFault::UnexpectedToken(seq!['-'])), st1)
        } else {
            let (r2, st2) = loom_step(s, st1);
            (negated_fault(s, r2), st2)
        },
        Some(Ok(m)) => if values && is_value_model(m) {
            (None, st1)
        } else {
            (Some(unexpected(s, m)), st1)
        },
        Some(Err(e)) => (Some(LoomFault::Lexical(e)), st1),
        None => (Some(LoomFault::UnexpectedEOF), st1),
    }
}

/// How reading the entries of an object from state `st` ends, after
/// entries with the keys `seen` were read: at its `}` when `closable`,
/// else at the end of the document; a key that was read before is refused
/// as a duplicate key.
pub open spec fn block_outcome(s: Seq<u8>, st: LoomState, closable: bool, seen: Seq<Seq<char>>) -> (
    Option<LoomFault>,
    LoomState,
)
    decreases loom_progress(s, st), 0int,
    when loom_state_ok(s, st)
{
    proof {
        lemma_loom_skip_lines(s, st);
    }
    let (r, st1) = loom_skip_lines(s, st);
    match r {
        Some(Ok(TokenModel::RightBrace)) => if closable {
            (None, st1)
        } else {
            (Some(LoomFault::UnexpectedToken(seq!['}'])), st1)
        },
        Some(Ok(TokenModel::Comma)) => block_outcome(s, st1, closable, seen),
        Some(Ok(TokenModel::Newline)) => block_outcome(s, st1, closable, seen),
        Some(Ok(TokenModel::Identifier(a, b))) => if seen.contains(decode_utf8(s.subrange(a, b))) {
            (Some(LoomFault::DuplicateKey(decode_utf8(s.subrange(a, b)))), st1)
        } else {
            let (e, mid) = individual_outcome(s, st1, false);
            if e is Some || !continues(s, mid, st1) {
                (e, mid)
            } else {
                block_outcome(s, mid, closable, seen.push(decode_utf8(s.subrange(a, b))))
            }
        },
        Some(Ok(m)) => (Some(unexpected(s, m)), st1),
        Some(Err(e)) => (Some(LoomFault::Lexical(e)), st1),
        None => if closable {
            (Some(LoomFault::UnexpectedEOF), st1)
        } else {
            (None, st1)
        },
    }
}

/// How reading the elements of an array from state `st` ends: at its `]`;
/// elements are separated by `,` or line breaks.
pub open spec fn array_outcome(s: Seq<u8>, st: LoomState) -> (Option<LoomFault>, LoomState)
    decreases loom_progress(s, st), 1int,
    when loom_state_ok(s, st)
{
    proof {
        lemma_loom_step(s, st);
    }
    match st.peeked {
        Some(Ok(TokenModel::RightBracket)) => (None, loom_step(s, st).1),
        Some(Ok(TokenModel::Newline)) => array_outcome(s, loom_step(s, st).1),
        Some(Ok(TokenModel::Comma)) => array_outcome(s, loom_step(s, st).1),
        Some(Ok(_)) => {
            let (e, mid) = individual_outcome(s, st, true);
            if e is Some || !advanced(s, mid, st) {
                (e, mid)
            } else {
                proof {
                    lemma_loom_step(s, mid);
                }
                match mid.peeked {
                    Some(Ok(TokenModel::Comma)) => array_outcome(s, loom_step(s, mid).1),
                    Some(Ok(TokenModel::Newline)) => array_outcome(s, loom_step(s, mid).1),
                    Some(Ok(TokenModel::RightBracket)) => (None, loom_step(s, mid).1),
                    Some(Ok(m)) => (Some(unexpected(s, m)), mid),
                    _ => array_outcome(s, mid),
                }
            }
        },
        Some(Err(e)) => (Some(LoomFault::Lexical(e)), st),
        None => (Some(LoomFault::UnexpectedEOF), st),
    }
}

/// How a value was read: nothing more for a single token; for an array,
/// how each element was read; for an object, the keys (as text) and values
/// of its entries, in order, and how each value was read.
pub enum LoomTrace {
    Leaf,
    Array(Seq<LoomTrace>),
    Object(Seq<(Seq<char>, Value)>, Seq<LoomTrace>),
}

/// `v` is the value that reading one value from `st` gives, read as `t`
/// tells.
pub open spec fn individual_value(s: Seq<u8>, st: LoomState, values: bool, v: Value, t: LoomTrace) -> bool
    decreases loom_progress(s, st), 0int,
    when loom_state_ok(s, st)
{
    proof {
        lemma_loom_step(s, st);
    }
    let (r, st1) = loom_step(s, st);
    match r {
        Some(Ok(TokenModel::Colon)) => !values && individual_value(s, st1, true, v, t),
        Some(Ok(TokenModel::LeftBrace)) => match (v, t) {
            (Value::Object(m), LoomTrace::Object(entries, ts)) => {
                &&& block_values(s, st1, true, Seq::empty(), entries, ts)
                &&& (obeys_cmp::<String>() ==> holds_entries(m@, entries))
            },
            _ => false,
        },
        Some(Ok(TokenModel::LeftBracket)) => match (v, t) {
            (Value::Array(items), LoomTrace::Array(ts)) => array_values(s, st1, items@, ts),
            _ => false,
        },
        Some(Ok(TokenModel::Sub)) => values && (loom_step(s, st1).0 matches Some(Ok(m))
            && negated_value(s, m, v)),
        Some(Ok(m)) => values && is_value_model(m) && plain_value(s, m, v),
        _ => false,
    }
}

/// `entries` are the keys (as text) and values of the remaining entries of
/// an object, read as `ts` tells, after entries with the keys `seen`.
pub open spec fn block_values(
    s: Seq<u8>,
    st: LoomState,
    closable: bool,
    seen: Seq<Seq<char>>,
    entries: Seq<(Seq<char>, Value)>,
    ts: Seq<LoomTrace>,
) -> bool
    decreases loom_progress(s, st), 0int,
    when loom_state_ok(s, st)
{
    proof {
        lemma_loom_skip_lines(s, st);
    }
    let (r, st1) = loom_skip_lines(s, st);
    match r {
        Some(Ok(TokenModel::Comma)) => block_values(s, st1, closable, seen, entries, ts),
        Some(Ok(TokenModel::Newline)) => block_values(s, st1, closable, seen, entries, ts),
        Some(Ok(TokenModel::Identifier(a, b))) => {
            let mid = individual_outcome(s, st1, false).1;
            &&& entries.len() > 0
            &&& ts.len() > 0
            &&& !seen.contains(decode_utf8(s.subrange(a, b)))
            &&& entries[0].0 == decode_utf8(s.subrange(a, b))
            &&& individual_value(s, st1, false, entries[0].1, ts[0])
            &&& continues(s, mid, st1)
            &&& block_values(
                s,
                mid,
                closable,
                seen.push(entries[0].0),
                entries.drop_first(),
                ts.drop_first(),
            )
        },
        _ => entries.len() == 0,
    }
}

/// `items` are the values of the remaining elements of an array, read as
/// `ts` tells.
pub open spec fn array_values(s: Seq<u8>, st: LoomState, items: Seq<Value>, ts: Seq<LoomTrace>) -> bool
    decreases loom_progress(s, st), 1int,
    when loom_state_ok(s, st)
{
    proof {
        lemma_loom_step(s, st);
    }
    match st.peeked {
        Some(Ok(TokenModel::Newline)) => array_values(s, loom_step(s, st).1, items, ts),
        Some(Ok(TokenModel::Comma)) => array_values(s, loom_step(s, st).1, items, ts),
        Some(Ok(TokenModel::RightBracket)) => items.len() == 0,
        Some(Ok(_)) => {
            let mid = individual_outcome(s, st, true).1;
            &&& items.len() > 0
            &&& ts.len() > 0
            &&& individual_value(s, st, true, items[0], ts[0])
            &&& advanced(s, mid, st)
            &&& {
                proof {
                    lemma_loom_step(s, mid);
                }
                match mid.peeked {
                    Some(Ok(TokenModel::Comma)) => array_values(
                        s,
                        loom_step(s, mid).1,
                        items.drop_first(),
                        ts.drop_first(),
                    ),
                    Some(Ok(TokenModel::Newline)) => array_values(
                        s,
                        loom_step(s, mid).1,
                        items.drop_first(),
                        ts.drop_first(),
                    ),
                    Some(Ok(TokenModel::RightBracket)) => items.len() == 1,
                    Some(Ok(_)) => false,
                    _ => array_values(s, mid, items.drop_first(), ts.drop_first()),
                }
            }
        },
        _ => items.len() == 0,
    }
}

/// How parsing the document `s` ends: the error that stops it, if any.
pub open spec fn parse_fault(s: Seq<u8>) -> Option<LoomFault> {
    match loom_start(s) {
        Err(e) => Some(LoomFault::Lexical(e)),
        Ok(st) => block_outcome(s, st, false, Seq::empty()).0,
    }
}

/// `v` is the object that reading the entries of an object from `st`
/// gives: the map of its entries, whose keys differ (as far as the ordering
/// of `String` keeps the laws that `BTreeMap` relies on).
pub open spec fn object_read(s: Seq<u8>, st: LoomState, closable: bool, v: Value) -> bool {
    match v {
        Value::Object(m) => exists|entries: Seq<(Seq<char>, Value)>, ts: Seq<LoomTrace>|
            #[trigger] block_values(s, st, closable, Seq::empty(), entries, ts) && (obeys_cmp::<String>()
                ==> holds_entries(m@, entries)),
        _ => false,
    }
}

/// `v` is the array that reading the elements of an array from `st` gives.
pub open spec fn array_read(s: Seq<u8>, st: LoomState, v: Value) -> bool {
    match v {
        Value::Array(items) => exists|ts: Seq<LoomTrace>| #[trigger] array_values(s, st, items@, ts),
        _ => false,
    }
}

/// `v` is the object that parsing the document `s` gives: its top level
/// read as the entries of an object.
pub open spec fn parsed_value(s: Seq<u8>, v: Value) -> bool {
    match loom_start(s) {
        Ok(st) => object_read(s, st, false, v),
        Err(_) => false,
    }
}

/// The text of a string token, its closing quote dropped.
fn without_last(text: &str) -> (r: &str)
    requires
        text.spec_bytes().len() >= 1,
        text.spec_bytes().last() < 0x80,
    ensures
        r.spec_bytes() == text.spec_bytes().drop_last(),
        r@ == decode_utf8(text.spec_bytes().drop_last()),
{
    let n = text.as_bytes().len();
    proof {
        assert(n == text.spec_bytes().len());
        assert(text.spec_bytes()[n - 1] == text.spec_bytes().last());
        lemma_ascii_byte_boundaries(text.spec_bytes(), n - 1);
    }
    let (head, _) = text.split_at(n - 1);
    proof {
        assert(head.spec_bytes() =~= text.spec_bytes().drop_last());
        assert(decode_utf8(encode_utf8(head@)) == head@);
    }
    head
}

/// Replaces the escape sequences of the text of a string token, whose
/// last character (the closing quote) is dropped.
pub fn unescape_string(string: &str) -> (r: String)
    requires
        string.spec_bytes().len() >= 1,
        string.spec_bytes().last() < 0x80,
    ensures
        r@ == unescape(decode_utf8(string.spec_bytes().drop_last())),
{
    let head = without_last(string);
    crate::text_format::unescape_string(head)
}

/// The error for the token `t` found out of place.
fn unexpected_error<'a>(t: Token<'a>, Ghost(s): Ghost<Seq<u8>>, Ghost(m): Ghost<TokenModel>) -> (r:
    LoomError)
    requires
        token_is(s, t, m),
    ensures
        r@ == unexpected(s, m),
{
    if let Token::Value(LoomValue::Raw(Literal::Float(f))) = t {
        return LoomError::UnexpectedFloat {
            integer: f.integer,
            fraction: vstd::slice::slice_to_vec(f.fraction),
        };
    }
    proof {
        lemma_token_chars(s, t, m);
    }
    match t.to_text() {
        Some(x) => LoomError::UnexpectedToken(x),
        None => {
            proof {
                assert(false);
            }
            LoomError::UnexpectedEOF
        },
    }
}

/// A token that is not a float is written as the text of its model.
proof fn lemma_token_chars(s: Seq<u8>, t: Token, m: TokenModel)
    requires
        token_is(s, t, m),
        !(m is Float),
    ensures
        token_chars(t) == Some(token_text(s, m)),
{
    match t {
        Token::Value(LoomValue::Raw(Literal::Text(x))) => {
            assert(decode_utf8(encode_utf8(x@)) == x@);
        },
        Token::Value(LoomValue::Raw(Literal::RawText(x))) => {
            assert(decode_utf8(encode_utf8(x@)) == x@);
        },
        Token::Identifier(x) => {
            assert(decode_utf8(encode_utf8(x@)) == x@);
        },
        _ => {},
    }
}

/// The value a value token stands for.
fn plain_value_of<'a>(value: LoomValue<'a>, Ghost(s): Ghost<Seq<u8>>, Ghost(m): Ghost<TokenModel>) -> (r:
    Value)
    requires
        token_is(s, Token::Value(value), m),
        is_value_model(m),
        model_ok(s, m),
    ensures
        plain_value(s, m, r),
{
    match value {
        LoomValue::Raw(Literal::NaN) => Value::Float(LoomFloat { negative: false, kind: LoomFloatKind::NaN }),
        LoomValue::Raw(Literal::Nil) => Value::Nil,
        LoomValue::Raw(Literal::Infinity) => Value::Float(
            LoomFloat { negative: false, kind: LoomFloatKind::Infinity },
        ),
        LoomValue::Raw(Literal::Boolean(b)) => Value::Boolean(b),
        LoomValue::Raw(Literal::Integer(i)) => Value::Integer(i),
        LoomValue::Raw(Literal::Float(f)) => Value::Float(
            LoomFloat {
                negative: false,
                kind: LoomFloatKind::Digits {
                    integer: f.integer,
                    fraction: vstd::slice::slice_to_vec(f.fraction),
                },
            },
        ),
        LoomValue::Raw(Literal::RawText(text)) => {
            let head = without_last(text);
            proof {
                assert(text.spec_bytes().drop_last() =~= s.subrange(m->RawText_0, m->RawText_1 - 1));
            }
            Value::String(head.to_owned())
        },
        LoomValue::Raw(Literal::Text(text)) => {
            proof {
                assert(text.spec_bytes().drop_last() =~= s.subrange(m->Text_0, m->Text_1 - 1));
            }
            Value::String(unescape_string(text))
        },
    }
}

/// Parses a document: its top level is an object whose entries run to the
/// end of the document.
pub fn parser_string(code: &str) -> (r: Result<Value, LoomError>)
    requires
        code.spec_bytes().len() < u32::MAX,
    ensures
        match r {
            Ok(v) => parse_fault(code.spec_bytes()) is None && parsed_value(code.spec_bytes(), v),
            Err(e) => parse_fault(code.spec_bytes()) == Some(e@),
        },
{
    let ghost s = code.spec_bytes();
    match Lexer::new(code) {
        Ok(mut lexer) => {
            parser_block_lex(&mut lexer, false)
        },
        Err(err) => Err(LoomError::Lexical(err)),
    }
}

/// Reads the entries of an object up to its `}` (when `closable`) or to
/// the end of the document (otherwise).
#[verifier::spinoff_prover]
fn parser_block_lex(lex: &mut Lexer, closable: bool) -> (r: Result<Value, LoomError>)
    requires
        old(lex).wf(),
    ensures
        final(lex).wf(),
        final(lex).input() == old(lex).input(),
        loom_progress(old(lex).input(), final(lex)@) <= loom_progress(old(lex).input(), old(lex)@),
        final(lex)@ == block_outcome(old(lex).input(), old(lex)@, closable, Seq::empty()).1,
        match r {
            Ok(v) => block_outcome(old(lex).input(), old(lex)@, closable, Seq::empty()).0 is None && object_read(
                old(lex).input(),
                old(lex)@,
                closable,
                v,
            ),
            Err(e) => block_outcome(old(lex).input(), old(lex)@, closable, Seq::empty()).0 == Some(e@),
        },
    decreases loom_progress(old(lex).input(), old(lex)@), 0int,
{
    let ghost s = lex.input();
    let ghost st0 = lex@;
    let mut btree: BTreeMap<String, Value> = BTreeMap::new();
    let ghost mut keys: Seq<String> = Seq::empty();
    let ghost mut entries: Seq<(Seq<char>, Value)> = Seq::empty();
    let ghost mut ts: Seq<LoomTrace> = Seq::empty();
    let mut names: Vec<&str> = Vec::new();
    proof {
        assert(keys_read(entries) =~= Seq::<Seq<char>>::empty());
        assert(texts_of(names@) =~= Seq::<Seq<char>>::empty());
        assert forall|rest: Seq<(Seq<char>, Value)>| entries + rest =~= rest by {}
        assert forall|rts: Seq<LoomTrace>| ts + rts =~= rts by {}
    }
    loop
        invariant
            lex.wf(),
            lex.input() == s,
            s == old(lex).input(),
            st0 == old(lex)@,
            continues(s, lex@, st0),
            texts_of(names@) == keys_read(entries),
            block_outcome(s, lex@, closable, keys_read(entries)) == block_outcome(
                s,
                st0,
                closable,
                Seq::empty(),
            ),
            forall|rest: Seq<(Seq<char>, Value)>, rts: Seq<LoomTrace>|
                #[trigger] block_values(s, lex@, closable, keys_read(entries), rest, rts)
                    ==> block_values(s, st0, closable, Seq::empty(), entries + rest, ts + rts),
            keys.len() == entries.len(),
            forall|i: int| 0 <= i < keys.len() ==> #[trigger] keys[i]@ == entries[i].0,
            obeys_cmp::<String>() ==> btree@ == inserted_all(keys, entry_values(entries)),
        decreases loom_progress(s, lex@),
    {
        let ghost before = lex@;
        let ghost seen = keys_read(entries);
        proof {
            lemma_loom_skip_lines(s, before);
        }
        let next = lex.next_skip_ln();
        let ghost st1 = lex@;
        let ghost model = loom_skip_lines(s, before).0;
        match next {
            Some(Ok(token)) => {
                let ghost m = model->Some_0->Ok_0;
                match token {
                    Token::RightBrace => {
                        if !closable {
                            let w = ['}'];
                            proof {
                                assert(w@ =~= seq!['}']);
                            }
                            return Err(LoomError::UnexpectedToken(string_of(&w)));
                        }
                        proof {
                            assert(block_values(s, before, closable, seen, Seq::empty(), Seq::empty()));
                            assert(entries + Seq::<(Seq<char>, Value)>::empty() =~= entries);
                            assert(ts + Seq::<LoomTrace>::empty() =~= ts);
                            assert(holds_entries(btree@, entries) || !obeys_cmp::<String>());
                        }
                        return Ok(Value::Object(btree));
                    },
                    Token::Comma | Token::Newline => {
                        proof {
                            assert forall|rest: Seq<(Seq<char>, Value)>, rts: Seq<LoomTrace>|
                                #[trigger] block_values(s, st1, closable, seen, rest, rts) implies block_values(
                                s,
                                st0,
                                closable,
                                Seq::empty(),
                                entries + rest,
                                ts + rts,
                            ) by {
                                assert(block_values(s, before, closable, seen, rest, rts));
                            }
                        }
                    },
                    Token::Identifier(ident) => {
                        proof {
                            assert(decode_utf8(encode_utf8(ident@)) == ident@);
                        }
                        if key_seen(&names, ident) {
                            return Err(LoomError::DuplicateKey(ident.to_owned()));
                        }
                        let key = ident.to_owned();
                        let value = match parser_individual(lex, false) {
                            Ok(v) => v,
                            Err(e) => {
                                return Err(e);
                            },
                        };
                        proof {
                            let t = choose|t: LoomTrace| individual_value(s, st1, false, value, t);
                            let e = (key@, value);
                            assert(continues(s, lex@, st1));
                            assert(keys_read(entries.push(e)) =~= seen.push(e.0));
                            assert forall|rest: Seq<(Seq<char>, Value)>, rts: Seq<LoomTrace>|
                                #[trigger] block_values(s, lex@, closable, seen.push(e.0), rest, rts) implies block_values(
                                s,
                                st0,
                                closable,
                                Seq::empty(),
                                entries.push(e) + rest,
                                ts.push(t) + rts,
                            ) by {
                                let r2 = seq![e] + rest;
                                let t2 = seq![t] + rts;
                                assert(r2[0] == e);
                                assert(t2[0] == t);
                                assert(r2.drop_first() =~= rest);
                                assert(t2.drop_first() =~= rts);
                                assert(block_values(s, before, closable, seen, r2, t2));
                                assert(entries + r2 =~= entries.push(e) + rest);
                                assert(ts + t2 =~= ts.push(t) + rts);
                            }
                            let vals = entry_values(entries);
                            assert(entry_values(entries.push(e)) =~= vals.push(value));
                            lemma_inserted_all_push(keys, vals, key, value);
                            assert(texts_of(names@.push(ident)) =~= texts_of(names@).push(ident@));
                            keys = keys.push(key);
                            entries = entries.push(e);
                            ts = ts.push(t);
                        }
                        btree.insert(key, value);
                        names.push(ident);
                    },
                    _ => {
                        return Err(unexpected_error(token, Ghost(s), Ghost(m)));
                    },
                }
            },
            Some(Err(err)) => {
                return Err(LoomError::Lexical(err));
            },
            None => {
                if closable {
                    return Err(LoomError::UnexpectedEOF);
                }
                proof {
                    assert(block_values(s, before, closable, seen, Seq::empty(), Seq::empty()));
                    assert(entries + Seq::<(Seq<char>, Value)>::empty() =~= entries);
                    assert(ts + Seq::<LoomTrace>::empty() =~= ts);
                }
                return Ok(Value::Object(btree));
            },
        }
    }
}

/// Reads one value: unless `values`, a `:` must come first (`{` and `[`
/// open an object and an array either way); a `-` may come before a
/// number.
#[verifier::spinoff_prover]
fn parser_individual(lex: &mut Lexer, values: bool) -> (r: Result<Value, LoomError>)
    requires
        old(lex).wf(),
    ensures
        final(lex).wf(),
        final(lex).input() == old(lex).input(),
        loom_progress(old(lex).input(), final(lex)@) <= loom_progress(old(lex).input(), old(lex)@),
        old(lex)@.peeked matches Some(Ok(_)) ==> loom_progress(old(lex).input(), final(lex)@)
            < loom_progress(old(lex).input(), old(lex)@),
        final(lex)@ == individual_outcome(old(lex).input(), old(lex)@, values).1,
        match r {
            Ok(v) => individual_outcome(old(lex).input(), old(lex)@, values).0 is None && exists|
                t: LoomTrace,
            | #[trigger] individual_value(old(lex).input(), old(lex)@, values, v, t),
            Err(e) => individual_outcome(old(lex).input(), old(lex)@, values).0 == Some(e@),
        },
    decreases loom_progress(old(lex).input(), old(lex)@), 0int,
{
    let ghost s = lex.input();
    let ghost before = lex@;
    proof {
        lemma_loom_step(s, before);
    }
    let next = lex.next();
    let ghost st1 = lex@;
    let ghost model = loom_step(s, before).0;
    match next {
        Some(Ok(token)) => {
            let ghost m = model->Some_0->Ok_0;
            match token {
                Token::Colon => {
                    if values {
                        let w = [':'];
                        proof {
                            assert(w@ =~= seq![':']);
                        }
                        return Err(LoomError::UnexpectedToken(string_of(&w)));
                    }
                    proof {
                        assert(individual_outcome(s, before, values) == individual_outcome(s, st1, true));
                    }
                    let r = parser_individual(lex, true);
                    proof {
                        if r is Ok {
                            let t = choose|t: LoomTrace| individual_value(s, st1, true, r->Ok_0, t);
                            assert(individual_value(s, before, values, r->Ok_0, t));
                        }
                    }
                    r
                },
                Token::LeftBrace => {
                    proof {
                        assert(individual_outcome(s, before, values) == block_outcome(s, st1, true, Seq::empty()));
                    }
                    let r = parser_block_lex(lex, true);
                    proof {
                        if r is Ok {
                            let v = r->Ok_0;
                            let m2 = v->Object_0;
                            let (entries, ts) = choose|
                                entries: Seq<(Seq<char>, Value)>,
                                ts: Seq<LoomTrace>,
                            |
                                #[trigger] block_values(s, st1, true, Seq::empty(), entries, ts) && (obeys_cmp::<
                                    String,
                                >() ==> holds_entries(m2@, entries));
                            assert(individual_value(s, before, values, v, LoomTrace::Object(entries, ts)));
                        }
                    }
                    r
                },
                Token::LeftBracket => {
                    proof {
                        assert(individual_outcome(s, before, values) == array_outcome(s, st1));
                    }
                    let r = parser_array(lex);
                    proof {
                        if r is Ok {
                            let v = r->Ok_0;
                            let items = v->Array_0;
                            let ts = choose|ts: Seq<LoomTrace>| #[trigger] array_values(s, st1, items@, ts);
                            assert(individual_value(s, before, values, v, LoomTrace::Array(ts)));
                        }
                    }
                    r
                },
                Token::Sub => {
                    if !values {
                        let w = ['-'];
                        proof {
                            assert(w@ =~= seq!['-']);
                        }
                        return Err(LoomError::UnexpectedToken(string_of(&w)));
                    }
                    proof {
                        lemma_loom_step(s, st1);
                    }
                    let r = parser_negated(lex);
                    proof {
                        if r is Ok {
                            assert(individual_value(s, before, values, r->Ok_0, LoomTrace::Leaf));
                        }
                    }
                    r
                },
                Token::Value(value) => {
                    if !values {
                        return Err(unexpected_error(token, Ghost(s), Ghost(m)));
                    }
                    let r = Ok(plain_value_of(value, Ghost(s), Ghost(m)));
                    proof {
                        assert(individual_value(s, before, values, r->Ok_0, LoomTrace::Leaf));
                    }
                    r
                },
                _ => Err(unexpected_error(token, Ghost(s), Ghost(m))),
            }
        },
        Some(Err(err)) => Err(LoomError::Lexical(err)),
        None => Err(LoomError::UnexpectedEOF),
    }
}

/// Reads the number after a `-`, negated.
fn parser_negated(lex: &mut Lexer) -> (r: Result<Value, LoomError>)
    requires
        old(lex).wf(),
    ensures
        final(lex).wf(),
        final(lex).input() == old(lex).input(),
        final(lex)@ == loom_step(old(lex).input(), old(lex)@).1,
        match r {
            Ok(v) => negated_fault(old(lex).input(), loom_step(old(lex).input(), old(lex)@).0) is None
                && (loom_step(old(lex).input(), old(lex)@).0 matches Some(Ok(m)) && negated_value(
                old(lex).input(),
                m,
                v,
            )),
            Err(e) => negated_fault(old(lex).input(), loom_step(old(lex).input(), old(lex)@).0)
                == Some(e@),
        },
{
    let ghost s = lex.input();
    let ghost m2 = loom_step(s, lex@).0;
    let after = lex.next();
    match after {
        Some(Ok(Token::Value(LoomValue::Raw(Literal::Integer(i))))) => Ok(
            Value::Integer(0i64.wrapping_sub(i)),
        ),
        Some(Ok(Token::Value(LoomValue::Raw(Literal::Infinity)))) => Ok(
            Value::Float(LoomFloat { negative: true, kind: LoomFloatKind::Infinity }),
        ),
        Some(Ok(Token::Value(LoomValue::Raw(Literal::Float(f))))) => Ok(
            Value::Float(
                LoomFloat {
                    negative: true,
                    kind: LoomFloatKind::Digits {
                        integer: f.integer,
                        fraction: vstd::slice::slice_to_vec(f.fraction),
                    },
                },
            ),
        ),
        Some(Ok(token)) => Err(unexpected_error(token, Ghost(s), Ghost(m2->Some_0->Ok_0))),
        Some(Err(err)) => Err(LoomError::Lexical(err)),
        None => Err(LoomError::UnexpectedEOF),
    }
}

/// Reads the elements of an array up to its `]`.
#[verifier::spinoff_prover]
fn parser_array(lex: &mut Lexer) -> (r: Result<Value, LoomError>)
    requires
        old(lex).wf(),
    ensures
        final(lex).wf(),
        final(lex).input() == old(lex).input(),
        loom_progress(old(lex).input(), final(lex)@) <= loom_progress(old(lex).input(), old(lex)@),
        final(lex)@ == array_outcome(old(lex).input(), old(lex)@).1,
        match r {
            Ok(v) => array_outcome(old(lex).input(), old(lex)@).0 is None && array_read(
                old(lex).input(),
                old(lex)@,
                v,
            ),
            Err(e) => array_outcome(old(lex).input(), old(lex)@).0 == Some(e@),
        },
    decreases loom_progress(old(lex).input(), old(lex)@), 1int,
{
    let ghost s = lex.input();
    let ghost st0 = lex@;
    let mut values: Vec<Value> = Vec::new();
    let ghost mut ts: Seq<LoomTrace> = Seq::empty();
    loop
        invariant
            lex.wf(),
            lex.input() == s,
            s == old(lex).input(),
            st0 == old(lex)@,
            continues(s, lex@, st0),
            array_outcome(s, lex@) == array_outcome(s, st0),
            forall|rest: Seq<Value>, rts: Seq<LoomTrace>|
                #[trigger] array_values(s, lex@, rest, rts) ==> array_values(
                    s,
                    st0,
                    values@ + rest,
                    ts + rts,
                ),
        decreases loom_progress(s, lex@),
    {
        let ghost before = lex@;
        proof {
            lemma_loom_step(s, before);
        }
        match lex.peek() {
            Some(Ok(Token::RightBracket)) => {
                lex.next();
                proof {
                    assert(array_values(s, before, Seq::empty(), Seq::empty()));
                    assert(values@ + Seq::<Value>::empty() =~= values@);
                    assert(ts + Seq::<LoomTrace>::empty() =~= ts);
                }
                let r = Ok(Value::Array(values));
                proof {
                    assert(r->Ok_0->Array_0@ == values@);
                }
                return r;
            },
            Some(Ok(Token::Newline)) | Some(Ok(Token::Comma)) => {
                lex.next();
                proof {
                    let st1 = lex@;
                    assert forall|rest: Seq<Value>, rts: Seq<LoomTrace>|
                        #[trigger] array_values(s, st1, rest, rts) implies array_values(
                        s,
                        st0,
                        values@ + rest,
                        ts + rts,
                    ) by {
                        assert(array_values(s, before, rest, rts));
                    }
                }
            },
            Some(Ok(_)) => {
                let x = match parser_individual(lex, true) {
                    Ok(x) => x,
                    Err(e) => {
                        return Err(e);
                    },
                };
                let ghost mid = lex@;
                let ghost t = choose|t: LoomTrace| individual_value(s, before, true, x, t);
                proof {
                    lemma_loom_step(s, mid);
                    assert(advanced(s, mid, before));
                }
                let ghost old_values = values@;
                values.push(x);
                match lex.peek() {
                    Some(Ok(Token::Comma)) | Some(Ok(Token::Newline)) => {
                        lex.next();
                        proof {
                            let st1 = lex@;
                            assert forall|rest: Seq<Value>, rts: Seq<LoomTrace>|
                                #[trigger] array_values(s, st1, rest, rts) implies array_values(
                                s,
                                st0,
                                values@ + rest,
                                ts.push(t) + rts,
                            ) by {
                                let r2 = seq![x] + rest;
                                let t2 = seq![t] + rts;
                                assert(r2[0] == x);
                                assert(t2[0] == t);
                                assert(r2.drop_first() =~= rest);
                                assert(t2.drop_first() =~= rts);
                                assert(array_values(s, before, r2, t2));
                                assert(old_values + r2 =~= values@ + rest);
                                assert(ts + t2 =~= ts.push(t) + rts);
                            }
                            ts = ts.push(t);
                        }
                    },
                    Some(Ok(Token::RightBracket)) => {
                        lex.next();
                        proof {
                            let r2 = seq![x];
                            let t2 = seq![t];
                            assert(r2[0] == x);
                            assert(t2[0] == t);
                            assert(array_values(s, before, r2, t2));
                            assert(old_values + r2 =~= values@);
                            ts = ts.push(t);
                            assert(ts =~= ts.drop_last() + t2);
                        }
                        let r = Ok(Value::Array(values));
                        proof {
                            assert(r->Ok_0->Array_0@ == values@);
                        }
                        return r;
                    },
                    Some(Ok(token)) => {
                        return Err(
                            unexpected_error(token, Ghost(s), Ghost(mid.peeked->Some_0->Ok_0)),
                        );
                    },
                    _ => {
                        proof {
                            assert forall|rest: Seq<Value>, rts: Seq<LoomTrace>|
                                #[trigger] array_values(s, mid, rest, rts) implies array_values(
                                s,
                                st0,
                                values@ + rest,
                                ts.push(t) + rts,
                            ) by {
                                let r2 = seq![x] + rest;
                                let t2 = seq![t] + rts;
                                assert(r2[0] == x);
                                assert(t2[0] == t);
                                assert(r2.drop_first() =~= rest);
                                assert(t2.drop_first() =~= rts);
                                assert(array_values(s, before, r2, t2));
                                assert(old_values + r2 =~= values@ + rest);
                                assert(ts + t2 =~= ts.push(t) + rts);
                            }
                            ts = ts.push(t);
                        }
                    },
                }
            },
            Some(Err(err)) => {
                return Err(LoomError::Lexical(err));
            },
            None => {
                return Err(LoomError::UnexpectedEOF);
            },
        }
    }
}

} // verus!
