//! Reading Rust values out of a Tero document: the `Deserialize` trait and
//! its implementations for the standard types.
use std::borrow::Cow;
use std::collections::VecDeque;
use vstd::prelude::*;
use vstd::utf8::*;
use vstd::string::StringSliceAdditionalSpecFns;
use crate::source::{Span, lemma_src_wf};
use crate::token::{Token, LexError};
use crate::lexer::{Lexer, LexerState, progress, lemma_lexer_wf};
use crate::parser::{EvalError, FieldValue, ArrayTracker, ArrayView, value_in, error_in, array_next, lemma_array_next};
use crate::text_format::{unescape, unescape_string};
use crate::text::{decimal, push_char, push_decimal};

verus! {

broadcast use {lemma_src_wf, lemma_lexer_wf, encode_utf8_decode_utf8};

/// A type that can be read from a value of a Tero document.
///
/// An implementation for a structure reads the entries of an object with a
/// `ScopeTracker` and hands each value to the implementation of the
/// field's type through `read_field`, then checks with `check_field` that
/// every required field was given.
pub trait Deserialize: Sized {
    /// Reading `value` from a lexer in state `st` over the document `s`
    /// gives `r` and leaves the lexer in state `st2`. An implementation
    /// that does not say more (one written outside this crate) promises
    /// nothing beyond the contract of `deserialize_tero`.
    open spec fn reads(
        s: Seq<u8>,
        value: FieldValue,
        st: LexerState,
        r: Result<Self, EvalError>,
        st2: LexerState,
    ) -> bool {
        true
    }

    /// Reads a value of this type from `value`, taking what follows it
    /// (the entries of an object, the elements of an array) from `lexer`.
    fn deserialize_tero(value: FieldValue, lexer: &mut Lexer) -> (r: Result<Self, EvalError>)
        requires
            old(lexer).wf(),
            value_in(old(lexer).input(), value),
        ensures
            final(lexer).wf(),
            final(lexer).input() == old(lexer).input(),
            progress(old(lexer).input(), final(lexer)@) <= progress(
                old(lexer).input(),
                old(lexer)@,
            ),
            Self::reads(old(lexer).input(), value, old(lexer)@, r, final(lexer)@),
            r matches Err(e) ==> error_in(old(lexer).input(), e),
    ;
}

/// The error for a value of the wrong shape: the literal itself, or the
/// bracket or brace that opens an array or object.
pub open spec fn shape_error(value: FieldValue) -> EvalError {
    match value {
        FieldValue::Literal(tk) => EvalError::UnexpectedToken(tk),
        FieldValue::Array(_) => EvalError::UnexpectedToken(Token::LeftBracket),
        FieldValue::Block(_) => EvalError::UnexpectedToken(Token::LeftBrace),
    }
}

/// The error for a value of the wrong shape.
pub(crate) fn shape_error_of(value: FieldValue) -> (e: EvalError)
    ensures
        e == shape_error(value),
{
    match value {
        FieldValue::Literal(tk) => EvalError::UnexpectedToken(tk),
        FieldValue::Array(_) => EvalError::UnexpectedToken(Token::LeftBracket),
        FieldValue::Block(_) => EvalError::UnexpectedToken(Token::LeftBrace),
    }
}

/// An integer read into a type whose range is `lo..=hi`: an integer
/// literal outside the range is an overflow; anything else is refused.
pub open spec fn int_reads(value: FieldValue, lo: int, hi: int) -> Result<int, EvalError> {
    match value {
        FieldValue::Literal(Token::Int(v)) => if lo <= v <= hi {
            Ok(v as int)
        } else {
            Err(EvalError::Lexical(LexError::NumericOverflow))
        },
        _ => Err(shape_error(value)),
    }
}

/// `r` with its value, when there is one, converted by `f`.
pub open spec fn map_ok<A, B>(r: Result<A, EvalError>, f: spec_fn(A) -> B) -> Result<B, EvalError> {
    match r {
        Ok(v) => Ok(f(v)),
        Err(e) => Err(e),
    }
}

/// The integer literal of `value` when it lies in `lo..=hi`.
fn literal_int(value: FieldValue, lo: i64, hi: i64) -> (r: Result<i64, EvalError>)
    ensures
        r == map_ok(int_reads(value, lo as int, hi as int), |v: int| v as i64),
{
    match value {
        FieldValue::Literal(Token::Int(v)) => {
            if lo <= v && v <= hi {
                Ok(v)
            } else {
                Err(EvalError::Lexical(LexError::NumericOverflow))
            }
        },
        _ => Err(shape_error_of(value)),
    }
}

impl Deserialize for i8 {
    open spec fn reads(
        s: Seq<u8>,
        value: FieldValue,
        st: LexerState,
        r: Result<i8, EvalError>,
        st2: LexerState,
    ) -> bool {
        &&& st2 == st
        &&& r == map_ok(int_reads(value, i8::MIN as int, i8::MAX as int), |v: int| v as i8)
    }

    fn deserialize_tero(value: FieldValue, lexer: &mut Lexer) -> (r: Result<i8, EvalError>) {
        match literal_int(value, i8::MIN as i64, i8::MAX as i64) {
            Ok(v) => Ok(v as i8),
            Err(e) => Err(e),
        }
    }
}

impl Deserialize for i16 {
    open spec fn reads(
        s: Seq<u8>,
        value: FieldValue,
        st: LexerState,
        r: Result<i16, EvalError>,
        st2: LexerState,
    ) -> bool {
        &&& st2 == st
        &&& r == map_ok(int_reads(value, i16::MIN as int, i16::MAX as int), |v: int| v as i16)
    }

    fn deserialize_tero(value: FieldValue, lexer: &mut Lexer) -> (r: Result<i16, EvalError>) {
        match literal_int(value, i16::MIN as i64, i16::MAX as i64) {
            Ok(v) => Ok(v as i16),
            Err(e) => Err(e),
        }
    }
}

impl Deserialize for i32 {
    open spec fn reads(
        s: Seq<u8>,
        value: FieldValue,
        st: LexerState,
        r: Result<i32, EvalError>,
        st2: LexerState,
    ) -> bool {
        &&& st2 == st
        &&& r == map_ok(int_reads(value, i32::MIN as int, i32::MAX as int), |v: int| v as i32)
    }

    fn deserialize_tero(value: FieldValue, lexer: &mut Lexer) -> (r: Result<i32, EvalError>) {
        match literal_int(value, i32::MIN as i64, i32::MAX as i64) {
            Ok(v) => Ok(v as i32),
            Err(e) => Err(e),
        }
    }
}

impl Deserialize for i64 {
    open spec fn reads(
        s: Seq<u8>,
        value: FieldValue,
        st: LexerState,
        r: Result<i64, EvalError>,
        st2: LexerState,
    ) -> bool {
        &&& st2 == st
        &&& r == map_ok(int_reads(value, i64::MIN as int, i64::MAX as int), |v: int| v as i64)
    }

    fn deserialize_tero(value: FieldValue, lexer: &mut Lexer) -> (r: Result<i64, EvalError>) {
        literal_int(value, i64::MIN, i64::MAX)
    }
}

impl Deserialize for i128 {
    open spec fn reads(
        s: Seq<u8>,
        value: FieldValue,
        st: LexerState,
        r: Result<i128, EvalError>,
        st2: LexerState,
    ) -> bool {
        &&& st2 == st
        &&& r == map_ok(int_reads(value, i128::MIN as int, i128::MAX as int), |v: int| v as i128)
    }

    fn deserialize_tero(value: FieldValue, lexer: &mut Lexer) -> (r: Result<i128, EvalError>) {
        match literal_int(value, i64::MIN, i64::MAX) {
            Ok(v) => Ok(v as i128),
            Err(e) => Err(e),
        }
    }
}

impl Deserialize for isize {
    open spec fn reads(
        s: Seq<u8>,
        value: FieldValue,
        st: LexerState,
        r: Result<isize, EvalError>,
        st2: LexerState,
    ) -> bool {
        &&& st2 == st
        &&& r == map_ok(int_reads(value, isize::MIN as int, isize::MAX as int), |v: int| v as isize)
    }

    fn deserialize_tero(value: FieldValue, lexer: &mut Lexer) -> (r: Result<isize, EvalError>) {
        let lo: i64 = if (isize::MIN as i128) < (i64::MIN as i128) {
            i64::MIN
        } else {
            isize::MIN as i64
        };
        let hi: i64 = if (isize::MAX as i128) > (i64::MAX as i128) {
            i64::MAX
        } else {
            isize::MAX as i64
        };
        match literal_int(value, lo, hi) {
            Ok(v) => Ok(v as isize),
            Err(e) => Err(e),
        }
    }
}

impl Deserialize for u8 {
    open spec fn reads(
        s: Seq<u8>,
        value: FieldValue,
        st: LexerState,
        r: Result<u8, EvalError>,
        st2: LexerState,
    ) -> bool {
        &&& st2 == st
        &&& r == map_ok(int_reads(value, 0, u8::MAX as int), |v: int| v as u8)
    }

    fn deserialize_tero(value: FieldValue, lexer: &mut Lexer) -> (r: Result<u8, EvalError>) {
        match literal_int(value, 0, u8::MAX as i64) {
            Ok(v) => Ok(v as u8),
            Err(e) => Err(e),
        }
    }
}

impl Deserialize for u16 {
    open spec fn reads(
        s: Seq<u8>,
        value: FieldValue,
        st: LexerState,
        r: Result<u16, EvalError>,
        st2: LexerState,
    ) -> bool {
        &&& st2 == st
        &&& r == map_ok(int_reads(value, 0, u16::MAX as int), |v: int| v as u16)
    }

    fn deserialize_tero(value: FieldValue, lexer: &mut Lexer) -> (r: Result<u16, EvalError>) {
        match literal_int(value, 0, u16::MAX as i64) {
            Ok(v) => Ok(v as u16),
            Err(e) => Err(e),
        }
    }
}

impl Deserialize for u32 {
    open spec fn reads(
        s: Seq<u8>,
        value: FieldValue,
        st: LexerState,
        r: Result<u32, EvalError>,
        st2: LexerState,
    ) -> bool {
        &&& st2 == st
        &&& r == map_ok(int_reads(value, 0, u32::MAX as int), |v: int| v as u32)
    }

    fn deserialize_tero(value: FieldValue, lexer: &mut Lexer) -> (r: Result<u32, EvalError>) {
        match literal_int(value, 0, u32::MAX as i64) {
            Ok(v) => Ok(v as u32),
            Err(e) => Err(e),
        }
    }
}

impl Deserialize for u64 {
    open spec fn reads(
        s: Seq<u8>,
        value: FieldValue,
        st: LexerState,
        r: Result<u64, EvalError>,
        st2: LexerState,
    ) -> bool {
        &&& st2 == st
        &&& r == map_ok(int_reads(value, 0, u64::MAX as int), |v: int| v as u64)
    }

    fn deserialize_tero(value: FieldValue, lexer: &mut Lexer) -> (r: Result<u64, EvalError>) {
        match literal_int(value, 0, i64::MAX) {
            Ok(v) => Ok(v as u64),
            Err(e) => Err(e),
        }
    }
}

impl Deserialize for u128 {
    open spec fn reads(
        s: Seq<u8>,
        value: FieldValue,
        st: LexerState,
        r: Result<u128, EvalError>,
        st2: LexerState,
    ) -> bool {
        &&& st2 == st
        &&& r == map_ok(int_reads(value, 0, u128::MAX as int), |v: int| v as u128)
    }

    fn deserialize_tero(value: FieldValue, lexer: &mut Lexer) -> (r: Result<u128, EvalError>) {
        match literal_int(value, 0, i64::MAX) {
            Ok(v) => Ok(v as u128),
            Err(e) => Err(e),
        }
    }
}

impl Deserialize for usize {
    open spec fn reads(
        s: Seq<u8>,
        value: FieldValue,
        st: LexerState,
        r: Result<usize, EvalError>,
        st2: LexerState,
    ) -> bool {
        &&& st2 == st
        &&& r == map_ok(int_reads(value, 0, usize::MAX as int), |v: int| v as usize)
    }

    fn deserialize_tero(value: FieldValue, lexer: &mut Lexer) -> (r: Result<usize, EvalError>) {
        let hi: i64 = if (usize::MAX as u128) > (i64::MAX as u128) {
            i64::MAX
        } else {
            usize::MAX as i64
        };
        match literal_int(value, 0, hi) {
            Ok(v) => Ok(v as usize),
            Err(e) => Err(e),
        }
    }
}

/// A boolean: only a `true` or `false` literal is accepted.
pub open spec fn bool_reads(value: FieldValue) -> Result<bool, EvalError> {
    match value {
        FieldValue::Literal(Token::Boolean(b)) => Ok(b),
        _ => Err(shape_error(value)),
    }
}

impl Deserialize for bool {
    open spec fn reads(
        s: Seq<u8>,
        value: FieldValue,
        st: LexerState,
        r: Result<bool, EvalError>,
        st2: LexerState,
    ) -> bool {
        &&& st2 == st
        &&& r == bool_reads(value)
    }

    fn deserialize_tero(value: FieldValue, lexer: &mut Lexer) -> (r: Result<bool, EvalError>) {
        match value {
            FieldValue::Literal(Token::Boolean(b)) => Ok(b),
            _ => Err(shape_error_of(value)),
        }
    }
}

/// The characters of the text a span covers in `s`.
pub open spec fn span_text(s: Seq<u8>, sp: Span) -> Seq<char> {
    decode_utf8(s.subrange(sp@.start as int, sp@.end as int))
}

/// The characters of a string: a raw string as written, a string with
/// escapes with them replaced; anything else is refused.
pub open spec fn string_reads(s: Seq<u8>, value: FieldValue) -> Result<Seq<char>, EvalError> {
    match value {
        FieldValue::Literal(Token::RawText(sp)) => Ok(span_text(s, sp)),
        FieldValue::Literal(Token::Text(sp)) => Ok(unescape(span_text(s, sp))),
        _ => Err(shape_error(value)),
    }
}

/// The characters of a string value.
pub(crate) fn read_string(value: FieldValue, lexer: &Lexer) -> (r: Result<String, EvalError>)
    requires
        lexer.wf(),
        value_in(lexer.input(), value),
    ensures
        match string_reads(lexer.input(), value) {
            Ok(t) => r matches Ok(x) && x@ == t,
            Err(e) => r == Err::<String, EvalError>(e),
        },
{
    match value {
        FieldValue::Literal(Token::RawText(text)) => {
            let t = text.as_str_unchecked(lexer);
            proof {
                assert(decode_utf8(encode_utf8(t@)) == t@);
            }
            Ok(t.to_owned())
        },
        FieldValue::Literal(Token::Text(text)) => {
            let t = text.as_str_unchecked(lexer);
            proof {
                assert(decode_utf8(encode_utf8(t@)) == t@);
            }
            Ok(unescape_string(t))
        },
        _ => Err(shape_error_of(value)),
    }
}

impl Deserialize for String {
    open spec fn reads(
        s: Seq<u8>,
        value: FieldValue,
        st: LexerState,
        r: Result<String, EvalError>,
        st2: LexerState,
    ) -> bool {
        &&& st2 == st
        &&& match string_reads(s, value) {
            Ok(t) => r matches Ok(x) && x@ == t,
            Err(e) => r == Err::<String, EvalError>(e),
        }
    }

    fn deserialize_tero(value: FieldValue, lexer: &mut Lexer) -> (r: Result<String, EvalError>) {
        read_string(value, lexer)
    }
}

impl<T: Deserialize> Deserialize for Option<T> {
    /// `nil` is `None`; any other value is read as a `T`.
    open spec fn reads(
        s: Seq<u8>,
        value: FieldValue,
        st: LexerState,
        r: Result<Option<T>, EvalError>,
        st2: LexerState,
    ) -> bool {
        if value == FieldValue::Literal(Token::Nil) {
            r == Ok::<Option<T>, EvalError>(None) && st2 == st
        } else {
            match r {
                Ok(Some(x)) => T::reads(s, value, st, Ok(x), st2),
                Ok(None) => false,
                Err(e) => T::reads(s, value, st, Err(e), st2),
            }
        }
    }

    fn deserialize_tero(value: FieldValue, lexer: &mut Lexer) -> (r: Result<Option<T>, EvalError>) {
        match value {
            FieldValue::Literal(Token::Nil) => Ok(None),
            val => match T::deserialize_tero(val, lexer) {
                Ok(x) => Ok(Some(x)),
                Err(e) => Err(e),
            },
        }
    }
}

impl<T: Deserialize> Deserialize for Box<T> {
    /// The value is read as a `T`.
    open spec fn reads(
        s: Seq<u8>,
        value: FieldValue,
        st: LexerState,
        r: Result<Box<T>, EvalError>,
        st2: LexerState,
    ) -> bool {
        match r {
            Ok(b) => T::reads(s, value, st, Ok(*b), st2),
            Err(e) => T::reads(s, value, st, Err(e), st2),
        }
    }

    fn deserialize_tero(value: FieldValue, lexer: &mut Lexer) -> (r: Result<Box<T>, EvalError>) {
        match T::deserialize_tero(value, lexer) {
            Ok(x) => Ok(Box::new(x)),
            Err(e) => Err(e),
        }
    }
}

/// Reading the elements of an array from parser state `av` and lexer
/// state `st` of the document `s`: `items` are the values read, in order,
/// `end` tells how the reading ended (`None` at the closing bracket, the
/// first error otherwise), and `st2` is the lexer state after it.
pub open spec fn elements_read<T: Deserialize>(
    s: Seq<u8>,
    av: ArrayView,
    st: LexerState,
    items: Seq<T>,
    end: Option<EvalError>,
    st2: LexerState,
) -> bool
    decreases items.len(),
{
    let (n, av1, st1) = array_next(s, av, st);
    if items.len() == 0 {
        match n {
            None => end is None && st2 == st1,
            Some(Err(e)) => end == Some(e) && st2 == st1,
            Some(Ok(fv)) => match end {
                Some(e) => T::reads(s, fv, st1, Err(e), st2),
                None => false,
            },
        }
    } else {
        match n {
            Some(Ok(fv)) => exists|mid: LexerState|
                #[trigger] T::reads(s, fv, st1, Ok(items[0]), mid) && elements_read::<T>(
                    s,
                    av1,
                    mid,
                    items.drop_first(),
                    end,
                    st2,
                ),
            _ => false,
        }
    }
}

/// The first elements of an array were read as `items`, leaving the
/// parser in state `av_end` and the lexer in state `st_end`.
pub open spec fn elements_prefix<T: Deserialize>(
    s: Seq<u8>,
    av: ArrayView,
    st: LexerState,
    items: Seq<T>,
    av_end: ArrayView,
    st_end: LexerState,
) -> bool
    decreases items.len(),
{
    if items.len() == 0 {
        av_end == av && st_end == st
    } else {
        let (n, av1, st1) = array_next(s, av, st);
        match n {
            Some(Ok(fv)) => exists|mid: LexerState|
                #[trigger] T::reads(s, fv, st1, Ok(items[0]), mid) && elements_prefix::<T>(
                    s,
                    av1,
                    mid,
                    items.drop_first(),
                    av_end,
                    st_end,
                ),
            _ => false,
        }
    }
}

/// One more element read after a prefix extends the prefix.
proof fn lemma_prefix_push<T: Deserialize>(
    s: Seq<u8>,
    av: ArrayView,
    st: LexerState,
    items: Seq<T>,
    av_end: ArrayView,
    st_end: LexerState,
    fv: FieldValue,
    x: T,
    mid: LexerState,
)
    requires
        elements_prefix::<T>(s, av, st, items, av_end, st_end),
        array_next(s, av_end, st_end).0 == Some(Ok::<FieldValue, EvalError>(fv)),
        T::reads(s, fv, array_next(s, av_end, st_end).2, Ok(x), mid),
    ensures
        elements_prefix::<T>(s, av, st, items.push(x), array_next(s, av_end, st_end).1, mid),
    decreases items.len(),
{
    let (n, av1, st1) = array_next(s, av, st);
    if items.len() == 0 {
        assert(items.push(x).drop_first() =~= Seq::<T>::empty());
        assert(items.push(x)[0] == x);
        assert(elements_prefix::<T>(s, av1, mid, Seq::<T>::empty(), av1, mid));
    } else {
        let f = n->Some_0->Ok_0;
        let m0 = choose|m: LexerState|
            #[trigger] T::reads(s, f, st1, Ok(items[0]), m) && elements_prefix::<T>(
                s,
                av1,
                m,
                items.drop_first(),
                av_end,
                st_end,
            );
        lemma_prefix_push(s, av1, m0, items.drop_first(), av_end, st_end, fv, x, mid);
        assert(items.push(x).drop_first() =~= items.drop_first().push(x));
        assert(items.push(x)[0] == items[0]);
    }
}

/// A prefix followed by the end of the reading is the whole reading.
proof fn lemma_prefix_end<T: Deserialize>(
    s: Seq<u8>,
    av: ArrayView,
    st: LexerState,
    items: Seq<T>,
    av_end: ArrayView,
    st_end: LexerState,
    end: Option<EvalError>,
    st2: LexerState,
)
    requires
        elements_prefix::<T>(s, av, st, items, av_end, st_end),
        elements_read::<T>(s, av_end, st_end, Seq::<T>::empty(), end, st2),
    ensures
        elements_read::<T>(s, av, st, items, end, st2),
    decreases items.len(),
{
    if items.len() > 0 {
        let (n, av1, st1) = array_next(s, av, st);
        let f = n->Some_0->Ok_0;
        let m0 = choose|m: LexerState|
            #[trigger] T::reads(s, f, st1, Ok(items[0]), m) && elements_prefix::<T>(
                s,
                av1,
                m,
                items.drop_first(),
                av_end,
                st_end,
            );
        lemma_prefix_end(s, av1, m0, items.drop_first(), av_end, st_end, end, st2);
    }
}

/// Reads the remaining elements of an array, each as a `T`.
pub(crate) fn collect_elements<T: Deserialize>(arr: &mut ArrayTracker, lexer: &mut Lexer) -> (r: Result<Vec<T>, EvalError>)
    requires
        old(lexer).wf(),
    ensures
        final(lexer).wf(),
        final(lexer).input() == old(lexer).input(),
        progress(old(lexer).input(), final(lexer)@) <= progress(old(lexer).input(), old(lexer)@),
        match r {
            Ok(v) => elements_read::<T>(old(lexer).input(), old(arr)@, old(lexer)@, v@, None, final(lexer)@),
            Err(e) => exists|items: Seq<T>|
                elements_read::<T>(old(lexer).input(), old(arr)@, old(lexer)@, items, Some(e), final(lexer)@),
        },
        r matches Err(e) ==> error_in(old(lexer).input(), e),
{
    let ghost s = lexer.input();
    let ghost av0 = arr@;
    let ghost st0 = lexer@;
    let mut vec: Vec<T> = Vec::new();
    let mut result: Option<Option<EvalError>> = None;
    loop
        invariant_except_break
            result is None,
            elements_prefix::<T>(s, av0, st0, vec@, arr@, lexer@),
        invariant
            lexer.wf(),
            lexer.input() == s,
            progress(s, lexer@) <= progress(s, st0),
        ensures
            result matches Some(end) && elements_read::<T>(s, av0, st0, vec@, end, lexer@),
            result matches Some(Some(e)) ==> error_in(s, e),
        decreases progress(s, lexer@),
    {
        let ghost av_end = arr@;
        let ghost st_end = lexer@;
        proof {
            lemma_array_next(s, arr@, lexer@);
        }
        match arr.next(lexer) {
            None => {
                proof {
                    lemma_prefix_end(s, av0, st0, vec@, av_end, st_end, None, lexer@);
                }
                result = Some(None);
                break;
            },
            Some(Err(e)) => {
                proof {
                    lemma_prefix_end(s, av0, st0, vec@, av_end, st_end, Some(e), lexer@);
                }
                result = Some(Some(e));
                break;
            },
            Some(Ok(el)) => {
                let ghost st1 = lexer@;
                let ghost av1 = arr@;
                match T::deserialize_tero(el, lexer) {
                    Ok(x) => {
                        proof {
                            lemma_prefix_push(s, av0, st0, vec@, av_end, st_end, el, x, lexer@);
                        }
                        vec.push(x);
                    },
                    Err(e) => {
                        proof {
                            assert(elements_read::<T>(s, av_end, st_end, Seq::<T>::empty(), Some(e), lexer@));
                            lemma_prefix_end(s, av0, st0, vec@, av_end, st_end, Some(e), lexer@);
                        }
                        result = Some(Some(e));
                        break;
                    },
                }
            },
        }
    }
    match result {
        Some(Some(e)) => Err(e),
        _ => Ok(vec),
    }
}

impl<T: Deserialize> Deserialize for Vec<T> {
    /// An array, whose elements are read as `T`s in order; anything else
    /// is refused.
    open spec fn reads(
        s: Seq<u8>,
        value: FieldValue,
        st: LexerState,
        r: Result<Vec<T>, EvalError>,
        st2: LexerState,
    ) -> bool {
        match value {
            FieldValue::Array(a) => match r {
                Ok(v) => elements_read::<T>(s, a@, st, v@, None, st2),
                Err(e) => exists|items: Seq<T>| elements_read::<T>(s, a@, st, items, Some(e), st2),
            },
            _ => r == Err::<Vec<T>, EvalError>(shape_error(value)) && st2 == st,
        }
    }

    fn deserialize_tero(value: FieldValue, lexer: &mut Lexer) -> (r: Result<Vec<T>, EvalError>) {
        match value {
            FieldValue::Array(mut arr) => collect_elements(&mut arr, lexer),
            _ => Err(shape_error_of(value)),
        }
    }
}

impl<T: Deserialize> Deserialize for VecDeque<T> {
    /// An array, whose elements are read as `T`s in order; anything else
    /// is refused.
    open spec fn reads(
        s: Seq<u8>,
        value: FieldValue,
        st: LexerState,
        r: Result<VecDeque<T>, EvalError>,
        st2: LexerState,
    ) -> bool {
        match value {
            FieldValue::Array(a) => match r {
                Ok(v) => elements_read::<T>(s, a@, st, v@, None, st2),
                Err(e) => exists|items: Seq<T>| elements_read::<T>(s, a@, st, items, Some(e), st2),
            },
            _ => r == Err::<VecDeque<T>, EvalError>(shape_error(value)) && st2 == st,
        }
    }

    fn deserialize_tero(value: FieldValue, lexer: &mut Lexer) -> (r: Result<VecDeque<T>, EvalError>) {
        match value {
            FieldValue::Array(mut arr) => match collect_elements::<T>(&mut arr, lexer) {
                Ok(mut vec) => {
                    let ghost all = vec@;
                    let mut deque: VecDeque<T> = VecDeque::new();
                    while vec.len() > 0
                        invariant
                            vec@ + deque@ == all,
                        decreases vec.len(),
                    {
                        let ghost before = deque@;
                        let ghost rest = vec@;
                        match vec.pop() {
                            Some(x) => {
                                deque.push_front(x);
                                proof {
                                    assert(vec@ + deque@ =~= rest + before);
                                }
                            },
                            None => {},
                        }
                    }
                    proof {
                        assert(deque@ =~= all);
                    }
                    Ok(deque)
                },
                Err(e) => Err(e),
            },
            _ => Err(shape_error_of(value)),
        }
    }
}

/// The name reported for a missing array element: `[n]`.
pub open spec fn missing_index(n: nat) -> Seq<char> {
    seq!['['] + decimal(n) + seq![']']
}

/// Turns a vector of exactly `N` elements into an array.
///
/// Trusted: calls the standard library's conversion `TryFrom<Vec<T>>` for
/// `[T; N]`, documented to succeed when the vector has exactly `N`
/// elements and to keep them in order.
#[verifier::external_body]
fn array_from_vec<T, const N: usize>(v: Vec<T>) -> (r: [T; N])
    requires
        v.len() == N,
    ensures
        r@ == v@,
{
    let a: Option<[T; N]> = v.try_into().ok();
    a.unwrap()
}

impl<T: Deserialize, const SIZE: usize> Deserialize for [T; SIZE] {
    /// An array of at least `SIZE` elements, each read as a `T`; the first
    /// `SIZE` are kept. With fewer, the field `[n]` is reported missing,
    /// where `n` is the number of elements read.
    open spec fn reads(
        s: Seq<u8>,
        value: FieldValue,
        st: LexerState,
        r: Result<[T; SIZE], EvalError>,
        st2: LexerState,
    ) -> bool {
        match value {
            FieldValue::Array(a) => match r {
                Ok(arr) => exists|items: Seq<T>|
                    elements_read::<T>(s, a@, st, items, None, st2) && items.len() >= SIZE && arr@
                        == items.take(SIZE as int),
                Err(e) => (exists|items: Seq<T>| elements_read::<T>(s, a@, st, items, Some(e), st2))
                    || (exists|items: Seq<T>|
                    elements_read::<T>(s, a@, st, items, None, st2) && items.len() < SIZE
                        && (e matches EvalError::MissingField(name) && name@ == missing_index(
                        items.len(),
                    ))),
            },
            _ => r == Err::<[T; SIZE], EvalError>(shape_error(value)) && st2 == st,
        }
    }

    fn deserialize_tero(value: FieldValue, lexer: &mut Lexer) -> (r: Result<[T; SIZE], EvalError>) {
        match value {
            FieldValue::Array(mut arr) => match collect_elements::<T>(&mut arr, lexer) {
                Ok(mut vec) => {
                    if vec.len() < SIZE {
                        let mut name = String::new();
                        push_char(&mut name, '[');
                        push_decimal(&mut name, vec.len() as u64);
                        push_char(&mut name, ']');
                        proof {
                            assert(name@ =~= missing_index(vec@.len()));
                        }
                        return Err(EvalError::MissingField(boxed_str(name)));
                    }
                    let ghost all = vec@;
                    vec.truncate(SIZE);
                    Ok(array_from_vec(vec))
                },
                Err(e) => Err(e),
            },
            _ => Err(shape_error_of(value)),
        }
    }
}

/// Turns a string into a boxed string slice.
///
/// Trusted: calls `String::into_boxed_str`, documented to keep the
/// characters of the string.
#[verifier::external_body]
pub(crate) fn boxed_str(s: String) -> (r: Box<str>)
    ensures
        r@ == s@,
{
    s.into_boxed_str()
}

impl Deserialize for Box<str> {
    /// A string, as for `String`.
    open spec fn reads(
        s: Seq<u8>,
        value: FieldValue,
        st: LexerState,
        r: Result<Box<str>, EvalError>,
        st2: LexerState,
    ) -> bool {
        &&& st2 == st
        &&& match string_reads(s, value) {
            Ok(t) => r matches Ok(x) && x@ == t,
            Err(e) => r == Err::<Box<str>, EvalError>(e),
        }
    }

    fn deserialize_tero(value: FieldValue, lexer: &mut Lexer) -> (r: Result<Box<str>, EvalError>) {
        match read_string(value, lexer) {
            Ok(x) => Ok(boxed_str(x)),
            Err(e) => Err(e),
        }
    }
}

impl<'a, T: Deserialize + Clone> Deserialize for Cow<'a, T> {
    /// The value is read as a `T`, which the result owns.
    open spec fn reads(
        s: Seq<u8>,
        value: FieldValue,
        st: LexerState,
        r: Result<Cow<'a, T>, EvalError>,
        st2: LexerState,
    ) -> bool {
        match r {
            Ok(c) => c matches Cow::Owned(x) && T::reads(s, value, st, Ok(x), st2),
            Err(e) => T::reads(s, value, st, Err(e), st2),
        }
    }

    fn deserialize_tero(value: FieldValue, lexer: &mut Lexer) -> (r: Result<Cow<'a, T>, EvalError>) {
        match T::deserialize_tero(value, lexer) {
            Ok(x) => Ok(Cow::Owned(x)),
            Err(e) => Err(e),
        }
    }
}

impl<'a> Deserialize for Cow<'a, str> {
    /// A string, as for `String`, which the result owns.
    open spec fn reads(
        s: Seq<u8>,
        value: FieldValue,
        st: LexerState,
        r: Result<Cow<'a, str>, EvalError>,
        st2: LexerState,
    ) -> bool {
        &&& st2 == st
        &&& match string_reads(s, value) {
            Ok(t) => r matches Ok(c) && c matches Cow::Owned(x) && x@ == t,
            Err(e) => r == Err::<Cow<'a, str>, EvalError>(e),
        }
    }

    fn deserialize_tero(value: FieldValue, lexer: &mut Lexer) -> (r: Result<Cow<'a, str>, EvalError>) {
        match read_string(value, lexer) {
            Ok(x) => Ok(Cow::Owned(x)),
            Err(e) => Err(e),
        }
    }
}

} // verus!
