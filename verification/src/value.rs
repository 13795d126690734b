//! `Value`: any Tero value, read without a schema.
use std::collections::BTreeMap;
use vstd::prelude::*;
use vstd::laws_cmp::obeys_cmp;
use crate::source::{Span, lemma_src_wf};
use crate::token::{Token, FloatLiteral, FloatKind};
use crate::lexer::{Lexer, LexerState, progress, state_ok, input_ok, lemma_lexer_wf};
use crate::parser::{
    EvalError,
    FieldValue,
    Field,
    ArrayTracker,
    ArrayView,
    ScopeTracker,
    ScopeView,
    value_in,
    error_in,
    array_next,
    scope_next,
    lemma_array_next,
    lemma_scope_next,
    lemma_field_parts,
    lemma_field_of_parts,
};
use crate::error::{digit_chars, span_bytes, push_digits};
use crate::deserialize::{Deserialize, string_reads, span_text, read_string, shape_error, shape_error_of};
use crate::text::{key_seen, texts_of};

verus! {

broadcast use {lemma_src_wf, lemma_lexer_wf, lemma_field_parts, lemma_field_of_parts};

/// The magnitude of a float as written: the integer part and the fraction
/// digits of a decimal, `NaN`, or `Infinity`.
#[derive(Debug, Clone, PartialEq)]
pub enum Magnitude {
    Decimal { integer: i64, fraction: String },
    NaN,
    Infinity,
}

/// A float as written in the document: its sign and its magnitude.
#[derive(Debug, Clone, PartialEq)]
pub struct FloatValue {
    pub negative: bool,
    pub magnitude: Magnitude,
}

/// Any valid Tero value.
#[derive(Debug, PartialEq)]
pub enum Value {
    /// `nil`.
    Nil,
    /// `true` or `false`.
    Boolean(bool),
    /// A float, `NaN` or `Infinity`.
    Float(FloatValue),
    /// An integer.
    Int(i64),
    /// A string.
    String(String),
    /// An array.
    Array(Vec<Value>),
    /// An object: its entries by key.
    Object(BTreeMap<String, Value>),
}

/// `v` is the float literal `f` of the document `s`: same sign, and the
/// same integer part and fraction digits (separators left out).
pub open spec fn float_value_of(s: Seq<u8>, f: FloatLiteral, v: FloatValue) -> bool {
    &&& v.negative == f.negative
    &&& match (f.kind, v.magnitude) {
        (FloatKind::Decimal { integer, fraction }, Magnitude::Decimal { integer: i, fraction: d }) => {
            &&& i == integer
            &&& d@ == digit_chars(span_bytes(s, fraction))
        },
        (FloatKind::NaN, Magnitude::NaN) => true,
        (FloatKind::Infinity, Magnitude::Infinity) => true,
        _ => false,
    }
}

/// The float value of the literal `f`.
fn float_value(f: FloatLiteral, lexer: &Lexer) -> (r: FloatValue)
    requires
        lexer.wf(),
    ensures
        float_value_of(lexer.input(), f, r),
{
    let magnitude = match f.kind {
        FloatKind::Decimal { integer, fraction } => {
            let mut digits = String::new();
            push_digits(&mut digits, lexer, fraction);
            Magnitude::Decimal { integer, fraction: digits }
        },
        FloatKind::NaN => Magnitude::NaN,
        FloatKind::Infinity => Magnitude::Infinity,
    };
    FloatValue { negative: f.negative, magnitude }
}

/// The value of a literal token: a boolean, integer, float, string or
/// `nil`; any other token is refused.
pub open spec fn literal_value(s: Seq<u8>, tk: Token, r: Result<Value, EvalError>) -> bool {
    match tk {
        Token::Boolean(b) => r == Ok::<Value, EvalError>(Value::Boolean(b)),
        Token::Int(i) => r == Ok::<Value, EvalError>(Value::Int(i)),
        Token::Float(f) => r matches Ok(Value::Float(x)) && float_value_of(s, f, x),
        Token::RawText(_) => match string_reads(s, FieldValue::Literal(tk)) {
            Ok(t) => r matches Ok(Value::String(x)) && x@ == t,
            Err(e) => r == Err::<Value, EvalError>(e),
        },
        Token::Text(_) => match string_reads(s, FieldValue::Literal(tk)) {
            Ok(t) => r matches Ok(Value::String(x)) && x@ == t,
            Err(e) => r == Err::<Value, EvalError>(e),
        },
        Token::Nil => r == Ok::<Value, EvalError>(Value::Nil),
        _ => r == Err::<Value, EvalError>(EvalError::UnexpectedToken(tk)),
    }
}

/// The map built by inserting `values[i]` under `keys[i]`, in order, into
/// an empty map.
pub open spec fn inserted_all<V>(keys: Seq<String>, values: Seq<V>) -> Map<String, V>
    decreases keys.len(),
{
    if keys.len() == 0 || values.len() == 0 {
        Map::empty()
    } else {
        inserted_all(keys.drop_last(), values.drop_last()).insert(keys.last(), values.last())
    }
}

/// The values of the entries, in order.
pub open spec fn entry_values<V>(entries: Seq<(Seq<char>, V)>) -> Seq<V> {
    entries.map_values(|e: (Seq<char>, V)| e.1)
}

/// `m` is built by inserting the entries in order, each value under a
/// string that spells its key.
pub open spec fn holds_entries<V>(m: Map<String, V>, entries: Seq<(Seq<char>, V)>) -> bool {
    exists|keys: Seq<String>|
        {
            &&& keys.len() == entries.len()
            &&& forall|i: int| 0 <= i < keys.len() ==> #[trigger] keys[i]@ == entries[i].0
            &&& m == inserted_all(keys, entry_values(entries))
        }
}

/// The error a literal token gives when read as a value, if any.
pub open spec fn literal_error(s: Seq<u8>, tk: Token) -> Option<EvalError> {
    match tk {
        Token::Boolean(_) => None,
        Token::Int(_) => None,
        Token::Float(_) => None,
        Token::Nil => None,
        Token::RawText(_) => match string_reads(s, FieldValue::Literal(tk)) {
            Ok(_) => None,
            Err(e) => Some(e),
        },
        Token::Text(_) => match string_reads(s, FieldValue::Literal(tk)) {
            Ok(_) => None,
            Err(e) => Some(e),
        },
        _ => Some(EvalError::UnexpectedToken(tk)),
    }
}

/// Reading goes on from lexer state `st`: it is valid and no further from
/// the end than `before`.
pub open spec fn continues(s: Seq<u8>, st: LexerState, before: LexerState) -> bool {
    state_ok(s, st) && progress(s, st) <= progress(s, before)
}

/// How reading `fv` as a value from lexer state `st` of the document `s`
/// ends: the error that stops it (`None` when it succeeds) and the lexer
/// state after it.
pub open spec fn read_outcome(s: Seq<u8>, fv: FieldValue, st: LexerState) -> (Option<EvalError>, LexerState)
    decreases progress(s, st), 1int,
{
    match fv {
        FieldValue::Array(a) => elements_outcome(s, a@, st),
        FieldValue::Block(b) => entries_outcome(s, b@, st, Seq::empty()),
        FieldValue::Literal(tk) => (literal_error(s, tk), st),
    }
}

/// How reading the remaining elements of an array as values ends: at the
/// closing bracket, or at the first error, of the parser or of an element.
pub open spec fn elements_outcome(s: Seq<u8>, av: ArrayView, st: LexerState) -> (
    Option<EvalError>,
    LexerState,
)
    decreases progress(s, st), 0int,
    when state_ok(s, st) && input_ok(s)
{
    proof {
        lemma_array_next(s, av, st);
    }
    let (n, av1, st1) = array_next(s, av, st);
    match n {
        None => (None, st1),
        Some(Err(e)) => (Some(e), st1),
        Some(Ok(f)) => {
            let (e1, mid) = read_outcome(s, f, st1);
            if e1 is Some || !continues(s, mid, st1) {
                (e1, mid)
            } else {
                elements_outcome(s, av1, mid)
            }
        },
    }
}

/// How reading the remaining entries of an object as values ends, after
/// entries with the keys `seen` were read: at the end of the object, or at
/// the first error, of the parser or of a value; a key that was read
/// before is refused as a duplicate key, reported at its span.
pub open spec fn entries_outcome(s: Seq<u8>, sc: ScopeView, st: LexerState, seen: Seq<Seq<char>>) -> (
    Option<EvalError>,
    LexerState,
)
    decreases progress(s, st), 0int,
    when state_ok(s, st) && input_ok(s)
{
    proof {
        lemma_scope_next(s, sc, st);
    }
    let (n, sc1, st1) = scope_next(s, sc, st);
    match n {
        None => (None, st1),
        Some(Err(e)) => (Some(e), st1),
        Some(Ok(f)) => if seen.contains(span_text(s, f.key_of())) {
            (Some(EvalError::DuplicateKey(f.key_of())), st1)
        } else {
            let (e1, mid) = read_outcome(s, f.value_of(), st1);
            if e1 is Some || !continues(s, mid, st1) {
                (e1, mid)
            } else {
                entries_outcome(s, sc1, mid, seen.push(span_text(s, f.key_of())))
            }
        },
    }
}

/// The keys (as text) of entries.
pub open spec fn keys_read<V>(entries: Seq<(Seq<char>, V)>) -> Seq<Seq<char>> {
    entries.map_values(|e: (Seq<char>, V)| e.0)
}

/// How a value was read: nothing more for a literal; for an array, how
/// each element was read; for an object, the keys (as text) and values of
/// its entries, in order, and how each value was read.
pub enum ValueTrace {
    Leaf,
    Array(Seq<ValueTrace>),
    Object(Seq<(Seq<char>, Value)>, Seq<ValueTrace>),
}

/// `v` is the value that reading `fv` from lexer state `st` gives, when
/// the reading succeeds, read as `t` tells. An object gives the map of its
/// entries (whose keys differ), as
/// far as the ordering of `String` keeps the laws that `BTreeMap` relies
/// on.
pub open spec fn value_of_read(s: Seq<u8>, fv: FieldValue, st: LexerState, v: Value, t: ValueTrace) -> bool
    decreases progress(s, st), 1int,
{
    match fv {
        FieldValue::Array(a) => match (v, t) {
            (Value::Array(items), ValueTrace::Array(ts)) => elements_values(s, a@, st, items@, ts),
            _ => false,
        },
        FieldValue::Block(b) => match (v, t) {
            (Value::Object(m), ValueTrace::Object(entries, ts)) => {
                &&& entries_values(s, b@, st, Seq::empty(), entries, ts)
                &&& (obeys_cmp::<String>() ==> holds_entries(m@, entries))
            },
            _ => false,
        },
        FieldValue::Literal(tk) => literal_value(s, tk, Ok(v)),
    }
}

/// `items` are the values of the remaining elements of an array, read as
/// `ts` tells.
pub open spec fn elements_values(
    s: Seq<u8>,
    av: ArrayView,
    st: LexerState,
    items: Seq<Value>,
    ts: Seq<ValueTrace>,
) -> bool
    decreases progress(s, st), 0int,
    when state_ok(s, st) && input_ok(s)
{
    proof {
        lemma_array_next(s, av, st);
    }
    let (n, av1, st1) = array_next(s, av, st);
    match n {
        Some(Ok(f)) => {
            let mid = read_outcome(s, f, st1).1;
            &&& items.len() > 0
            &&& ts.len() > 0
            &&& value_of_read(s, f, st1, items[0], ts[0])
            &&& continues(s, mid, st1)
            &&& elements_values(s, av1, mid, items.drop_first(), ts.drop_first())
        },
        _ => items.len() == 0,
    }
}

/// `entries` are the keys (as text) and values of the remaining entries of
/// an object, read as `ts` tells, after entries with the keys `seen`.
pub open spec fn entries_values(
    s: Seq<u8>,
    sc: ScopeView,
    st: LexerState,
    seen: Seq<Seq<char>>,
    entries: Seq<(Seq<char>, Value)>,
    ts: Seq<ValueTrace>,
) -> bool
    decreases progress(s, st), 0int,
    when state_ok(s, st) && input_ok(s)
{
    proof {
        lemma_scope_next(s, sc, st);
    }
    let (n, sc1, st1) = scope_next(s, sc, st);
    match n {
        Some(Ok(f)) => {
            let mid = read_outcome(s, f.value_of(), st1).1;
            &&& entries.len() > 0
            &&& ts.len() > 0
            &&& !seen.contains(span_text(s, f.key_of()))
            &&& entries[0].0 == span_text(s, f.key_of())
            &&& value_of_read(s, f.value_of(), st1, entries[0].1, ts[0])
            &&& continues(s, mid, st1)
            &&& entries_values(
                s,
                sc1,
                mid,
                seen.push(entries[0].0),
                entries.drop_first(),
                ts.drop_first(),
            )
        },
        _ => entries.len() == 0,
    }
}

/// Reading `fv` as a `Value` from lexer state `st` of the document `s`
/// gives `r` and leaves the lexer in state `st2`.
pub open spec fn value_reads(
    s: Seq<u8>,
    fv: FieldValue,
    st: LexerState,
    r: Result<Value, EvalError>,
    st2: LexerState,
) -> bool {
    &&& st2 == read_outcome(s, fv, st).1
    &&& match r {
        Ok(v) => read_outcome(s, fv, st).0 is None && exists|t: ValueTrace|
            #[trigger] value_of_read(s, fv, st, v, t),
        Err(e) => read_outcome(s, fv, st).0 == Some(e),
    }
}

/// Inserting one more entry extends the map built from the entries.
pub(crate) proof fn lemma_inserted_all_push<V>(keys: Seq<String>, values: Seq<V>, k: String, v: V)
    requires
        keys.len() == values.len(),
    ensures
        inserted_all(keys.push(k), values.push(v)) == inserted_all(keys, values).insert(k, v),
{
    assert(keys.push(k).drop_last() =~= keys);
    assert(values.push(v).drop_last() =~= values);
}

/// The value of a literal token.
fn read_literal(tk: Token, lexer: &Lexer) -> (r: Result<Value, EvalError>)
    requires
        lexer.wf(),
        value_in(lexer.input(), FieldValue::Literal(tk)),
    ensures
        match r {
            Ok(v) => literal_error(lexer.input(), tk) is None && literal_value(lexer.input(), tk, Ok(v)),
            Err(e) => literal_error(lexer.input(), tk) == Some(e),
        },
{
    match tk {
        Token::Boolean(b) => Ok(Value::Boolean(b)),
        Token::Int(i) => Ok(Value::Int(i)),
        Token::Float(f) => Ok(Value::Float(float_value(f, lexer))),
        Token::RawText(_) => match read_string(FieldValue::Literal(tk), lexer) {
            Ok(x) => Ok(Value::String(x)),
            Err(e) => Err(e),
        },
        Token::Text(_) => match read_string(FieldValue::Literal(tk), lexer) {
            Ok(x) => Ok(Value::String(x)),
            Err(e) => Err(e),
        },
        Token::Nil => Ok(Value::Nil),
        _ => Err(EvalError::UnexpectedToken(tk)),
    }
}

/// Reads `value` as a `Value`, taking the elements of an array and the
/// entries of an object from `lexer`.
fn read_value(value: FieldValue, lexer: &mut Lexer) -> (r: Result<Value, EvalError>)
    requires
        old(lexer).wf(),
        value_in(old(lexer).input(), value),
    ensures
        final(lexer).wf(),
        final(lexer).input() == old(lexer).input(),
        progress(old(lexer).input(), final(lexer)@) <= progress(old(lexer).input(), old(lexer)@),
        value_reads(old(lexer).input(), value, old(lexer)@, r, final(lexer)@),
        r matches Err(e) ==> error_in(old(lexer).input(), e),
    decreases progress(old(lexer).input(), old(lexer)@), 1int,
{
    let ghost s = lexer.input();
    let ghost st0 = lexer@;
    match value {
        FieldValue::Array(arr) => match read_value_array(arr, lexer) {
            Ok(v) => {
                let ghost ts = choose|ts: Seq<ValueTrace>| elements_values(s, arr@, st0, v@, ts);
                let r = Ok(Value::Array(v));
                proof {
                    assert(value_of_read(s, value, st0, r->Ok_0, ValueTrace::Array(ts)));
                }
                r
            },
            Err(e) => Err(e),
        },
        FieldValue::Block(scope) => match read_value_object(scope, lexer) {
            Ok(m) => {
                let ghost (entries, ts) = choose|entries: Seq<(Seq<char>, Value)>, ts: Seq<ValueTrace>|
                    entries_values(s, scope@, st0, Seq::empty(), entries, ts) && (obeys_cmp::<String>()
                        ==> holds_entries(m@, entries));
                let r = Ok(Value::Object(m));
                proof {
                    assert(value_of_read(s, value, st0, r->Ok_0, ValueTrace::Object(entries, ts)));
                }
                r
            },
            Err(e) => Err(e),
        },
        FieldValue::Literal(tk) => {
            let r = read_literal(tk, lexer);
            proof {
                if r is Ok {
                    assert(value_of_read(s, value, st0, r->Ok_0, ValueTrace::Leaf));
                }
            }
            r
        },
    }
}

/// Reads the remaining elements of an array as values.
#[verifier::spinoff_prover]
fn read_value_array(arr: ArrayTracker, lexer: &mut Lexer) -> (r: Result<Vec<Value>, EvalError>)
    requires
        old(lexer).wf(),
    ensures
        final(lexer).wf(),
        final(lexer).input() == old(lexer).input(),
        progress(old(lexer).input(), final(lexer)@) <= progress(old(lexer).input(), old(lexer)@),
        final(lexer)@ == elements_outcome(old(lexer).input(), arr@, old(lexer)@).1,
        match r {
            Ok(v) => elements_outcome(old(lexer).input(), arr@, old(lexer)@).0 is None && exists|
                ts: Seq<ValueTrace>,
            | elements_values(old(lexer).input(), arr@, old(lexer)@, v@, ts),
            Err(e) => elements_outcome(old(lexer).input(), arr@, old(lexer)@).0 == Some(e),
        },
        r matches Err(e) ==> error_in(old(lexer).input(), e),
    decreases progress(old(lexer).input(), old(lexer)@), 0int,
{
    let ghost s = lexer.input();
    let ghost av0 = arr@;
    let ghost st0 = lexer@;
    let mut tracker = arr;
    let mut vec: Vec<Value> = Vec::new();
    let ghost mut ts: Seq<ValueTrace> = Seq::empty();
    let mut result: Option<Option<EvalError>> = None;
    loop
        invariant_except_break
            result is None,
            elements_outcome(s, tracker@, lexer@) == elements_outcome(s, av0, st0),
            forall|rest: Seq<Value>, rts: Seq<ValueTrace>|
                #[trigger] elements_values(s, tracker@, lexer@, rest, rts) ==> elements_values(
                    s,
                    av0,
                    st0,
                    vec@ + rest,
                    ts + rts,
                ),
        invariant
            lexer.wf(),
            lexer.input() == s,
            s == old(lexer).input(),
            st0 == old(lexer)@,
            state_ok(s, st0),
            input_ok(s),
            progress(s, lexer@) <= progress(s, st0),
        ensures
            result matches Some(Some(e)) ==> error_in(s, e),
            result matches Some(end) && elements_outcome(s, av0, st0) == (end, lexer@) && (end is None
                ==> elements_values(s, av0, st0, vec@, ts)),
        decreases progress(s, lexer@),
    {
        let ghost av_end = tracker@;
        let ghost st_end = lexer@;
        proof {
            lemma_array_next(s, tracker@, lexer@);
        }
        match tracker.next(lexer) {
            None => {
                proof {
                    assert(elements_values(s, av_end, st_end, Seq::<Value>::empty(), Seq::<ValueTrace>::empty()));
                    assert(vec@ + Seq::<Value>::empty() =~= vec@);
                    assert(ts + Seq::<ValueTrace>::empty() =~= ts);
                }
                result = Some(None);
                break;
            },
            Some(Err(e)) => {
                result = Some(Some(e));
                break;
            },
            Some(Ok(el)) => {
                let ghost st1 = lexer@;
                let ghost av1 = tracker@;
                match read_value(el, lexer) {
                    Ok(x) => {
                        proof {
                            let t = choose|t: ValueTrace| value_of_read(s, el, st1, x, t);
                            assert(continues(s, lexer@, st1));
                            assert(elements_outcome(s, av_end, st_end) == elements_outcome(s, av1, lexer@));
                            assert forall|rest: Seq<Value>, rts: Seq<ValueTrace>|
                                #[trigger] elements_values(s, av1, lexer@, rest, rts) implies elements_values(
                                s,
                                av0,
                                st0,
                                vec@.push(x) + rest,
                                ts.push(t) + rts,
                            ) by {
                                let r2 = seq![x] + rest;
                                let t2 = seq![t] + rts;
                                assert(r2[0] == x);
                                assert(t2[0] == t);
                                assert(r2.drop_first() =~= rest);
                                assert(t2.drop_first() =~= rts);
                                assert(elements_values(s, av_end, st_end, r2, t2));
                                assert(vec@ + r2 =~= vec@.push(x) + rest);
                                assert(ts + t2 =~= ts.push(t) + rts);
                            }
                            ts = ts.push(t);
                        }
                        vec.push(x);
                    },
                    Err(e) => {
                        result = Some(Some(e));
                        break;
                    },
                }
            },
        }
    }
    match result {
        Some(Some(e)) => Err(e),
        _ => {
            let r: Result<Vec<Value>, EvalError> = Ok(vec);
            proof {
                let v = r->Ok_0;
                assert(v@ == vec@);
                assert(elements_values(s, arr@, st0, v@, ts));
            }
            r
        },
    }
}

/// Reads the remaining entries of an object as values, each under its key.
#[verifier::spinoff_prover]
fn read_value_object(scope: ScopeTracker, lexer: &mut Lexer) -> (r: Result<BTreeMap<String, Value>, EvalError>)
    requires
        old(lexer).wf(),
    ensures
        final(lexer).wf(),
        final(lexer).input() == old(lexer).input(),
        progress(old(lexer).input(), final(lexer)@) <= progress(old(lexer).input(), old(lexer)@),
        final(lexer)@ == entries_outcome(old(lexer).input(), scope@, old(lexer)@, Seq::empty()).1,
        match r {
            Ok(m) => entries_outcome(old(lexer).input(), scope@, old(lexer)@, Seq::empty()).0 is None && exists|
                entries: Seq<(Seq<char>, Value)>,
                ts: Seq<ValueTrace>,
            |
                entries_values(old(lexer).input(), scope@, old(lexer)@, Seq::empty(), entries, ts) && (obeys_cmp::<
                    String,
                >() ==> holds_entries(m@, entries)),
            Err(e) => entries_outcome(old(lexer).input(), scope@, old(lexer)@, Seq::empty()).0 == Some(e),
        },
        r matches Err(e) ==> error_in(old(lexer).input(), e),
    decreases progress(old(lexer).input(), old(lexer)@), 0int,
{
    let ghost s = lexer.input();
    let ghost sc0 = scope@;
    let ghost st0 = lexer@;
    let mut tracker = scope;
    let mut map: BTreeMap<String, Value> = BTreeMap::new();
    let ghost mut keys: Seq<String> = Seq::empty();
    let ghost mut entries: Seq<(Seq<char>, Value)> = Seq::empty();
    let ghost mut ts: Seq<ValueTrace> = Seq::empty();
    let mut names: Vec<&str> = Vec::new();
    let mut result: Option<Option<EvalError>> = None;
    proof {
        assert(keys_read(entries) =~= Seq::<Seq<char>>::empty());
        assert(texts_of(names@) =~= Seq::<Seq<char>>::empty());
        assert forall|rest: Seq<(Seq<char>, Value)>| entries + rest =~= rest by {}
        assert forall|rts: Seq<ValueTrace>| ts + rts =~= rts by {}
    }
    loop
        invariant_except_break
            result is None,
            entries_outcome(s, tracker@, lexer@, keys_read(entries)) == entries_outcome(
                s,
                sc0,
                st0,
                Seq::empty(),
            ),
            forall|rest: Seq<(Seq<char>, Value)>, rts: Seq<ValueTrace>|
                #[trigger] entries_values(s, tracker@, lexer@, keys_read(entries), rest, rts)
                    ==> entries_values(s, sc0, st0, Seq::empty(), entries + rest, ts + rts),
        invariant
            texts_of(names@) == keys_read(entries),
            lexer.wf(),
            lexer.input() == s,
            s == old(lexer).input(),
            st0 == old(lexer)@,
            state_ok(s, st0),
            input_ok(s),
            progress(s, lexer@) <= progress(s, st0),
            keys.len() == entries.len(),
            forall|i: int| 0 <= i < keys.len() ==> #[trigger] keys[i]@ == entries[i].0,
            obeys_cmp::<String>() ==> map@ == inserted_all(keys, entry_values(entries)),
        ensures
            result matches Some(Some(e)) ==> error_in(s, e),
            result matches Some(end) && entries_outcome(s, sc0, st0, Seq::empty()) == (end, lexer@)
                && (end is None ==> entries_values(s, sc0, st0, Seq::empty(), entries, ts)),
        decreases progress(s, lexer@),
    {
        let ghost sc_end = tracker@;
        let ghost st_end = lexer@;
        let ghost seen = keys_read(entries);
        proof {
            lemma_scope_next(s, tracker@, lexer@);
        }
        match tracker.next(lexer) {
            None => {
                proof {
                    assert(entries_values(s, sc_end, st_end, seen, Seq::<(Seq<char>, Value)>::empty(), Seq::<ValueTrace>::empty()));
                    assert(entries + Seq::<(Seq<char>, Value)>::empty() =~= entries);
                    assert(ts + Seq::<ValueTrace>::empty() =~= ts);
                }
                result = Some(None);
                break;
            },
            Some(Err(e)) => {
                result = Some(Some(e));
                break;
            },
            Some(Ok(field)) => {
                let ghost f = field;
                let ghost st1 = lexer@;
                let ghost sc1 = tracker@;
                let (span, val) = field.tulpe();
                let name = match span.as_str(lexer) {
                    Some(t) => t,
                    None => {
                        proof {
                            assert(false);
                        }
                        ""
                    },
                };
                proof {
                    assert(name@ == span_text(s, span)) by {
                        broadcast use vstd::utf8::encode_utf8_decode_utf8;
                    }
                }
                if key_seen(&names, name) {
                    proof {
                        assert(span == f.key_of());
                    }
                    result = Some(Some(EvalError::DuplicateKey(span)));
                    break;
                }
                let key = name.to_owned();
                match read_value(val, lexer) {
                    Ok(x) => {
                        proof {
                            let t = choose|t: ValueTrace| value_of_read(s, val, st1, x, t);
                            let e = (span_text(s, span), x);
                            assert(continues(s, lexer@, st1));
                            assert(!seen.contains(span_text(s, f.key_of())));
                            assert(entries_outcome(s, sc_end, st_end, seen) == entries_outcome(s, sc1, lexer@, seen.push(e.0)));
                            assert(keys_read(entries.push(e)) =~= seen.push(e.0));
                            assert forall|rest: Seq<(Seq<char>, Value)>, rts: Seq<ValueTrace>|
                                #[trigger] entries_values(s, sc1, lexer@, seen.push(e.0), rest, rts) implies entries_values(
                                s,
                                sc0,
                                st0,
                                Seq::empty(),
                                entries.push(e) + rest,
                                ts.push(t) + rts,
                            ) by {
                                let r2 = seq![e] + rest;
                                let t2 = seq![t] + rts;
                                assert(r2[0] == e);
                                assert(t2[0] == t);
                                assert(r2.drop_first() =~= rest);
                                assert(t2.drop_first() =~= rts);
                                assert(entries_values(s, sc_end, st_end, seen, r2, t2));
                                assert(entries + r2 =~= entries.push(e) + rest);
                                assert(ts + t2 =~= ts.push(t) + rts);
                            }
                            let vals = entry_values(entries);
                            assert(entry_values(entries.push(e)) =~= vals.push(x));
                            lemma_inserted_all_push(keys, vals, key, x);
                            assert(texts_of(names@.push(name)) =~= texts_of(names@).push(name@));
                            keys = keys.push(key);
                            entries = entries.push(e);
                            ts = ts.push(t);
                        }
                        map.insert(key, x);
                        names.push(name);
                    },
                    Err(e) => {
                        result = Some(Some(e));
                        break;
                    },
                }
            },
        }
    }
    proof {
        if obeys_cmp::<String>() {
            assert(map@ == inserted_all(keys, entry_values(entries)));
        }
        assert(obeys_cmp::<String>() ==> holds_entries(map@, entries));
    }
    match result {
        Some(Some(e)) => Err(e),
        _ => Ok(map),
    }
}

impl Deserialize for Value {
    /// Any value: see `value_reads`.
    open spec fn reads(
        s: Seq<u8>,
        value: FieldValue,
        st: LexerState,
        r: Result<Value, EvalError>,
        st2: LexerState,
    ) -> bool {
        value_reads(s, value, st, r, st2)
    }

    fn deserialize_tero(value: FieldValue, lexer: &mut Lexer) -> (r: Result<Value, EvalError>) {
        read_value(value, lexer)
    }
}

/// `x` is the float an integer literal `i` stands for: no sign of its own
/// and no fraction digits, its integer part being `i` itself.
pub open spec fn int_as_float(i: i64, x: FloatValue) -> bool {
    !x.negative && match x.magnitude {
        Magnitude::Decimal { integer, fraction } => integer == i && fraction@ == Seq::<char>::empty(),
        _ => false,
    }
}

impl Deserialize for FloatValue {
    /// A float literal, as written, or an integer literal as a float;
    /// anything else is refused.
    open spec fn reads(
        s: Seq<u8>,
        value: FieldValue,
        st: LexerState,
        r: Result<FloatValue, EvalError>,
        st2: LexerState,
    ) -> bool {
        &&& st2 == st
        &&& match value {
            FieldValue::Literal(Token::Float(f)) => r matches Ok(x) && float_value_of(s, f, x),
            FieldValue::Literal(Token::Int(i)) => r matches Ok(x) && int_as_float(i, x),
            _ => r == Err::<FloatValue, EvalError>(shape_error(value)),
        }
    }

    fn deserialize_tero(value: FieldValue, lexer: &mut Lexer) -> (r: Result<FloatValue, EvalError>) {
        match value {
            FieldValue::Literal(Token::Float(f)) => Ok(float_value(f, lexer)),
            FieldValue::Literal(Token::Int(i)) => Ok(
                FloatValue {
                    negative: false,
                    magnitude: Magnitude::Decimal { integer: i, fraction: String::new() },
                },
            ),
            _ => Err(shape_error_of(value)),
        }
    }
}

} // verus!
