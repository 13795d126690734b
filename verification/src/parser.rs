//! The pull parser: object scopes and arrays that read their entries from
//! the lexer one at a time.
use vstd::prelude::*;
use vstd::string::StringSliceAdditionalSpecFns;
use crate::source::{Span, Location, lemma_location_at, lemma_location_of_view, lemma_src_wf};
use crate::token::{Token, LexError, FloatLiteral};
use crate::lexer::{
    Lexer,
    LexerState,
    next_step,
    skip_newlines,
    progress,
    state_ok,
    input_ok,
    peeked_in,
    lemma_next_step,
    lemma_skip_newlines,
    lemma_lexer_wf,
};

verus! {

broadcast use {lemma_location_at, lemma_location_of_view, lemma_lexer_wf, lemma_src_wf};

/// The errors of the parsing stage.
#[derive(Debug, PartialEq)]
pub enum EvalError {
    /// A lexical error met while parsing.
    Lexical(LexError),
    /// A token that is not allowed where it was found.
    UnexpectedToken(Token),
    /// A key given twice in one object.
    DuplicateKey(Span),
    /// A required field that the object does not give.
    MissingField(Box<str>),
}

/// Tracks the parsing state of an object block: whether it is closed by a
/// brace, whether that brace has been read, and where it starts.
#[derive(Debug, PartialEq)]
pub struct ScopeTracker {
    has_closed: bool,
    closed: bool,
    location: Location,
}

/// Tracks the parsing state of an array: where it starts, whether it has
/// ended, and whether a value may come next.
#[derive(Debug, PartialEq)]
pub struct ArrayTracker {
    location: Location,
    closed: bool,
    has_value: bool,
}

/// The value of an object entry or array element: a literal, or a nested
/// object or array still to be read from the lexer.
#[derive(Debug, PartialEq)]
pub enum FieldValue {
    Literal(Token),
    Block(ScopeTracker),
    Array(ArrayTracker),
}

/// A parsed key-value entry of an object: the span of the key and its value.
#[derive(Debug, PartialEq)]
pub struct Field {
    key: Span,
    value: FieldValue,
}

/// The contents of a `ScopeTracker`.
pub struct ScopeView {
    pub has_closed: bool,
    pub closed: bool,
    pub location: Location,
}

/// The contents of an `ArrayTracker`.
pub struct ArrayView {
    pub location: Location,
    pub closed: bool,
    pub has_value: bool,
}

impl View for ScopeTracker {
    type V = ScopeView;

    closed spec fn view(&self) -> ScopeView {
        ScopeView { has_closed: self.has_closed, closed: self.closed, location: self.location }
    }
}

impl View for ArrayTracker {
    type V = ArrayView;

    closed spec fn view(&self) -> ArrayView {
        ArrayView { location: self.location, closed: self.closed, has_value: self.has_value }
    }
}

impl ScopeTracker {
    /// The tracker with the given contents.
    pub closed spec fn from_view(v: ScopeView) -> ScopeTracker {
        ScopeTracker { has_closed: v.has_closed, closed: v.closed, location: v.location }
    }
}

impl ArrayTracker {
    /// The tracker with the given contents.
    pub closed spec fn from_view(v: ArrayView) -> ArrayTracker {
        ArrayTracker { location: v.location, closed: v.closed, has_value: v.has_value }
    }
}

impl Field {
    /// The entry with the given key and value.
    pub closed spec fn spec_new(key: Span, value: FieldValue) -> Field {
        Field { key, value }
    }

    /// The key span.
    pub closed spec fn key_of(&self) -> Span {
        self.key
    }

    /// The value.
    pub closed spec fn value_of(&self) -> FieldValue {
        self.value
    }
}

pub broadcast proof fn lemma_scope_view(v: ScopeView)
    ensures
        #[trigger] ScopeTracker::from_view(v)@ == v,
{
}

pub broadcast proof fn lemma_scope_of_view(t: ScopeTracker)
    ensures
        #[trigger] ScopeTracker::from_view(t@) == t,
{
}

pub broadcast proof fn lemma_field_parts(key: Span, value: FieldValue)
    ensures
        #[trigger] Field::spec_new(key, value).key_of() == key,
        Field::spec_new(key, value).value_of() == value,
{
}

pub broadcast proof fn lemma_field_of_parts(f: Field)
    ensures
        #[trigger] Field::spec_new(f.key_of(), f.value_of()) == f,
{
}


/// A fresh scope tracker: open, with its location one byte before the end
/// of the last token handed out when it is closed by a brace.
pub open spec fn new_scope_view(st: LexerState, has_closed: bool) -> ScopeView {
    ScopeView {
        has_closed,
        closed: false,
        location: Location::at(
            (st.end_token@ - if has_closed {
                1int
            } else {
                0int
            }) as u32,
        ),
    }
}

/// A fresh array tracker, located at the bracket handed out last.
pub open spec fn new_array_view(st: LexerState) -> ArrayView {
    ArrayView { location: Location::at((st.end_token@ - 1) as u32), closed: false, has_value: true }
}

/// The number after a `-`: only an integer or a float may follow, and it
/// is negated.
pub open spec fn negated_literal(s: Seq<u8>, st: LexerState) -> (
    Result<FieldValue, EvalError>,
    LexerState,
) {
    let (t, st2) = next_step(s, st);
    match t {
        Some(Ok(Token::Int(i))) => (Ok(FieldValue::Literal(Token::Int((-i) as i64))), st2),
        Some(Ok(Token::Float(f))) => (Ok(FieldValue::Literal(Token::Float(f.spec_negate()))), st2),
        Some(Ok(tk)) => (Err(EvalError::UnexpectedToken(tk)), st2),
        Some(Err(e)) => (Err(EvalError::Lexical(e)), st2),
        None => (Err(EvalError::Lexical(LexError::UnexpectedEOF)), st2),
    }
}

/// Reads the value of an object entry after its key. A `:` is required
/// before a literal and optional before an object or array; a second `:`
/// is refused.
pub open spec fn extract_field_spec(s: Seq<u8>, st: LexerState, is_colon: bool) -> (
    Result<FieldValue, EvalError>,
    LexerState,
)
    decreases progress(s, st),
    when state_ok(s, st) && input_ok(s)
{
    let (t, st2) = skip_newlines(s, st);
    match t {
        Some(Ok(Token::Colon)) => if is_colon {
            (Err(EvalError::UnexpectedToken(Token::Colon)), st2)
        } else {
            proof {
                lemma_skip_newlines(s, st);
            }
            extract_field_spec(s, st2, true)
        },
        Some(Err(e)) => (Err(EvalError::Lexical(e)), st2),
        Some(Ok(Token::Sub)) => if !is_colon {
            (Err(EvalError::UnexpectedToken(Token::Sub)), st2)
        } else {
            let (r, st3) = negated_literal(s, st2);
            if r is Ok {
                (r, LexerState { prev_token: st2.prev_token, ..st3 })
            } else {
                (r, st3)
            }
        },
        Some(Ok(Token::LeftBrace)) => (
            Ok(
                FieldValue::Block(
                    ScopeTracker::from_view(
                        ScopeView {
                            has_closed: true,
                            closed: false,
                            location: Location::at((st2.pos - 1) as u32),
                        },
                    ),
                ),
            ),
            st2,
        ),
        Some(Ok(Token::LeftBracket)) => (
            Ok(FieldValue::Array(ArrayTracker::from_view(new_array_view(st2)))),
            st2,
        ),
        Some(Ok(tk)) => if tk.is_literal() {
            if !is_colon {
                (Err(EvalError::UnexpectedToken(tk)), st2)
            } else {
                (Ok(FieldValue::Literal(tk)), st2)
            }
        } else {
            (Err(EvalError::UnexpectedToken(tk)), st2)
        },
        None => (Err(EvalError::Lexical(LexError::UnexpectedEOF)), st2),
    }
}

/// What `ScopeTracker::next` does on an open scope: separators are passed
/// over; a key starts an entry; a `}` closes a scope that opened with a
/// brace and is refused in the top-level scope; the end of the input ends
/// the top-level scope and is an error in a braced one.
pub open spec fn scope_next_open(s: Seq<u8>, sc: ScopeView, st: LexerState) -> (
    Option<Result<Field, EvalError>>,
    ScopeView,
    LexerState,
)
    decreases progress(s, st),
    when state_ok(s, st) && input_ok(s)
{
    let (t, st2) = skip_newlines(s, st);
    match t {
        Some(Ok(Token::Identifier(span))) => {
            proof {
                lemma_skip_newlines(s, st);
            }
            let (v, st3) = extract_field_spec(s, st2, false);
            match v {
                Err(e) => (Some(Err(e)), sc, st3),
                Ok(val) => (Some(Ok(Field::spec_new(span, val))), sc, st3),
            }
        },
        Some(Ok(Token::Comma)) => {
            proof {
                lemma_skip_newlines(s, st);
            }
            scope_next_open(s, sc, st2)
        },
        Some(Ok(Token::Newline)) => {
            proof {
                lemma_skip_newlines(s, st);
            }
            scope_next_open(s, sc, st2)
        },
        Some(Ok(Token::RightBrace)) => if !sc.has_closed {
            (Some(Err(EvalError::UnexpectedToken(Token::RightBrace))), sc, st2)
        } else {
            (None, ScopeView { closed: true, ..sc }, st2)
        },
        Some(Ok(tk)) => (Some(Err(EvalError::UnexpectedToken(tk))), sc, st2),
        Some(Err(e)) => (Some(Err(EvalError::Lexical(e))), sc, st2),
        None => if sc.has_closed {
            (Some(Err(EvalError::Lexical(LexError::UnexpectedEOF))), sc, st2)
        } else {
            (None, sc, st2)
        },
    }
}

/// What `ScopeTracker::next` does: nothing once the scope is closed.
pub open spec fn scope_next(s: Seq<u8>, sc: ScopeView, st: LexerState) -> (
    Option<Result<Field, EvalError>>,
    ScopeView,
    LexerState,
) {
    if sc.closed {
        (None, sc, st)
    } else {
        scope_next_open(s, sc, st)
    }
}

/// What `ArrayTracker::next` does on an open array: separators allow the
/// next value; a value where none is allowed is refused; `]` closes the
/// array; the end of the input is an error.
pub open spec fn array_next_open(s: Seq<u8>, av: ArrayView, st: LexerState) -> (
    Option<Result<FieldValue, EvalError>>,
    ArrayView,
    LexerState,
)
    decreases progress(s, st),
    when state_ok(s, st) && input_ok(s)
{
    let (t, st2) = next_step(s, st);
    match t {
        Some(Ok(Token::Comma)) => {
            proof {
                lemma_next_step(s, st);
            }
            array_next_open(s, ArrayView { has_value: true, ..av }, st2)
        },
        Some(Ok(Token::Newline)) => {
            proof {
                lemma_next_step(s, st);
            }
            array_next_open(s, ArrayView { has_value: true, ..av }, st2)
        },
        Some(Ok(Token::LeftBrace)) => if !av.has_value {
            (Some(Err(EvalError::UnexpectedToken(Token::LeftBrace))), av, st2)
        } else {
            (
                Some(Ok(FieldValue::Block(ScopeTracker::from_view(new_scope_view(st2, true))))),
                ArrayView { has_value: false, ..av },
                st2,
            )
        },
        Some(Ok(Token::LeftBracket)) => if !av.has_value {
            (Some(Err(EvalError::UnexpectedToken(Token::LeftBracket))), av, st2)
        } else {
            (
                Some(Ok(FieldValue::Array(ArrayTracker::from_view(new_array_view(st2))))),
                ArrayView { has_value: false, ..av },
                st2,
            )
        },
        Some(Ok(Token::RightBracket)) => (None, ArrayView { closed: true, ..av }, st2),
        Some(Ok(Token::Sub)) => if !av.has_value {
            (Some(Err(EvalError::UnexpectedToken(Token::Sub))), av, st2)
        } else {
            let (r, st3) = negated_literal(s, st2);
            (
                Some(r),
                ArrayView { has_value: false, ..av },
                LexerState { prev_token: st2.prev_token, ..st3 },
            )
        },
        Some(Ok(tk)) => if tk.is_literal() {
            if !av.has_value {
                (Some(Err(EvalError::UnexpectedToken(tk))), av, st2)
            } else {
                (Some(Ok(FieldValue::Literal(tk))), ArrayView { has_value: false, ..av }, st2)
            }
        } else {
            (Some(Err(EvalError::UnexpectedToken(tk))), av, st2)
        },
        Some(Err(e)) => (Some(Err(EvalError::Lexical(e))), av, st2),
        None => (Some(Err(EvalError::Lexical(LexError::UnexpectedEOF))), av, st2),
    }
}

/// What `ArrayTracker::next` does: nothing once the array is closed.
pub open spec fn array_next(s: Seq<u8>, av: ArrayView, st: LexerState) -> (
    Option<Result<FieldValue, EvalError>>,
    ArrayView,
    LexerState,
) {
    if av.closed {
        (None, av, st)
    } else {
        array_next_open(s, av, st)
    }
}


/// The string tokens inside a value cover pieces of the text of `s`.
pub open spec fn value_in(s: Seq<u8>, v: FieldValue) -> bool {
    match v {
        FieldValue::Literal(Token::RawText(sp)) => sp.spec_is_text_in(s),
        FieldValue::Literal(Token::Text(sp)) => sp.spec_is_text_in(s),
        _ => true,
    }
}

/// A duplicate key is reported at a span that starts inside `s`.
pub open spec fn error_in(s: Seq<u8>, e: EvalError) -> bool {
    e matches EvalError::DuplicateKey(sp) ==> sp@.start <= s.len()
}

/// `skip_newlines` hands out a token that lies inside the input.
pub proof fn lemma_skip_newlines_token(s: Seq<u8>, st: LexerState)
    requires
        input_ok(s),
        state_ok(s, st),
    ensures
        peeked_in(skip_newlines(s, st).0, s),
    decreases progress(s, st),
{
    lemma_next_step(s, st);
    let (r, st2) = next_step(s, st);
    if r == Some(Ok::<Token, LexError>(Token::Newline)) {
        lemma_skip_newlines(s, st);
        lemma_skip_newlines_token(s, st2);
    }
}

/// Reading a number after `-` keeps the lexer state valid and never moves
/// back.
pub proof fn lemma_negated_literal(s: Seq<u8>, st: LexerState)
    requires
        input_ok(s),
        state_ok(s, st),
    ensures
        state_ok(s, negated_literal(s, st).1),
        state_ok(s, LexerState { prev_token: st.prev_token, ..negated_literal(s, st).1 }),
        progress(s, negated_literal(s, st).1) <= progress(s, st),
        negated_literal(s, st).0 matches Err(e) ==> !(e is DuplicateKey),
{
    lemma_next_step(s, st);
}

/// Reading the value of an entry keeps the lexer state valid, never moves
/// back, and hands out values whose strings lie in the input.
pub proof fn lemma_extract_field(s: Seq<u8>, st: LexerState, is_colon: bool)
    requires
        input_ok(s),
        state_ok(s, st),
    ensures
        state_ok(s, extract_field_spec(s, st, is_colon).1),
        progress(s, extract_field_spec(s, st, is_colon).1) <= progress(s, st),
        extract_field_spec(s, st, is_colon).0 matches Ok(v) ==> value_in(s, v),
        extract_field_spec(s, st, is_colon).0 matches Err(e) ==> !(e is DuplicateKey),
    decreases progress(s, st),
{
    lemma_skip_newlines(s, st);
    lemma_skip_newlines_token(s, st);
    let (t, st2) = skip_newlines(s, st);
    match t {
        Some(Ok(Token::Colon)) => {
            if !is_colon {
                lemma_extract_field(s, st2, true);
            }
        },
        Some(Ok(Token::Sub)) => {
            if is_colon {
                lemma_negated_literal(s, st2);
            }
        },
        _ => {},
    }
}

/// A step of the object parser keeps the lexer state valid, never moves
/// back, moves forward when it hands out an entry, and hands out values
/// whose strings lie in the input.
pub proof fn lemma_scope_next(s: Seq<u8>, sc: ScopeView, st: LexerState)
    requires
        input_ok(s),
        state_ok(s, st),
    ensures
        state_ok(s, scope_next(s, sc, st).2),
        progress(s, scope_next(s, sc, st).2) <= progress(s, st),
        scope_next(s, sc, st).0 matches Some(Ok(f)) ==> {
            &&& progress(s, scope_next(s, sc, st).2) < progress(s, st)
            &&& value_in(s, f.value_of())
            &&& f.key_of().spec_is_text_in(s)
        },
        scope_next(s, sc, st).1.has_closed == sc.has_closed,
        scope_next(s, sc, st).0 matches Some(Err(e)) ==> !(e is DuplicateKey),
    decreases progress(s, st),
{
    if !sc.closed {
        lemma_skip_newlines(s, st);
        lemma_skip_newlines_token(s, st);
        let (t, st2) = skip_newlines(s, st);
        match t {
            Some(Ok(Token::Identifier(span))) => {
                lemma_extract_field(s, st2, false);
            },
            Some(Ok(Token::Comma)) => {
                lemma_scope_next(s, sc, st2);
            },
            Some(Ok(Token::Newline)) => {
                lemma_scope_next(s, sc, st2);
            },
            _ => {},
        }
    }
}

/// A step of the array parser keeps the lexer state valid, never moves
/// back, moves forward when it hands out an element, and hands out values
/// whose strings lie in the input.
pub proof fn lemma_array_next(s: Seq<u8>, av: ArrayView, st: LexerState)
    requires
        input_ok(s),
        state_ok(s, st),
    ensures
        state_ok(s, array_next(s, av, st).2),
        progress(s, array_next(s, av, st).2) <= progress(s, st),
        array_next(s, av, st).0 matches Some(Ok(v)) ==> {
            &&& progress(s, array_next(s, av, st).2) < progress(s, st)
            &&& value_in(s, v)
        },
        array_next(s, av, st).0 matches Some(Err(e)) ==> !(e is DuplicateKey),
    decreases progress(s, st),
{
    if !av.closed {
        lemma_next_step(s, st);
        let (t, st2) = next_step(s, st);
        match t {
            Some(Ok(Token::Comma)) => {
                lemma_array_next(s, ArrayView { has_value: true, ..av }, st2);
            },
            Some(Ok(Token::Newline)) => {
                lemma_array_next(s, ArrayView { has_value: true, ..av }, st2);
            },
            Some(Ok(Token::Sub)) => {
                lemma_negated_literal(s, st2);
            },
            _ => {},
        }
    }
}

impl ScopeTracker {
    /// A tracker for the scope that starts here: the top-level scope, or,
    /// with `has_closed`, an object just opened by the `{` handed out last.
    pub fn new(lex: &Lexer, has_closed: bool) -> (r: Self)
        requires
            lex.wf(),
            has_closed ==> lex@.end_token@ >= 1,
        ensures
            r@ == new_scope_view(lex@, has_closed),
    {
        let mut location = lex.location();
        location.retreat(if has_closed {
            1
        } else {
            0
        });
        ScopeTracker { has_closed, closed: false, location }
    }

    /// Reads the value of an entry whose key was just handed out.
    fn extract_field(&self, lexer: &mut Lexer) -> (r: Result<FieldValue, EvalError>)
        requires
            old(lexer).wf(),
        ensures
            final(lexer).wf(),
            final(lexer).input() == old(lexer).input(),
            (r, final(lexer)@) == extract_field_spec(old(lexer).input(), old(lexer)@, false),
    {
        let ghost s = lexer.input();
        let mut is_colon = false;
        let mut result: Option<Result<FieldValue, EvalError>> = None;
        loop
            invariant_except_break
                result is None,
                extract_field_spec(s, lexer@, is_colon) == extract_field_spec(s, old(lexer)@, false),
            invariant
                lexer.wf(),
                lexer.input() == s,
            ensures
                result matches Some(r) && (r, lexer@) == extract_field_spec(s, old(lexer)@, false),
            decreases progress(s, lexer@),
        {
            let ghost before = lexer@;
            proof {
                lemma_skip_newlines(s, lexer@);
            }
            let t = lexer.next_skip_ln();
            match t {
                Some(Ok(Token::Colon)) => {
                    if is_colon {
                        result = Some(Err(EvalError::UnexpectedToken(Token::Colon)));
                        break;
                    }
                    is_colon = true;
                },
                Some(Err(err)) => {
                    result = Some(Err(EvalError::Lexical(err)));
                    break;
                },
                Some(Ok(Token::Sub)) => {
                    if !is_colon {
                        result = Some(Err(EvalError::UnexpectedToken(Token::Sub)));
                        break;
                    }
                    let prev = lexer.prevlocation();
                    proof {
                        lemma_next_step(s, lexer@);
                    }
                    let r = match lexer.next() {
                        Some(Ok(Token::Int(i))) => Ok(FieldValue::Literal(Token::Int(-i))),
                        Some(Ok(Token::Float(f))) => Ok(FieldValue::Literal(Token::Float(f.negate()))),
                        Some(Ok(token)) => Err(EvalError::UnexpectedToken(token)),
                        Some(Err(err)) => Err(EvalError::Lexical(err)),
                        None => Err(EvalError::Lexical(LexError::UnexpectedEOF)),
                    };
                    if r.is_ok() {
                        lexer.set_prev_location(prev);
                    }
                    result = Some(r);
                    break;
                },
                Some(Ok(Token::LeftBrace)) => {
                    let mut location = lexer.cursor_location();
                    location.retreat(1);
                    result = Some(
                        Ok(FieldValue::Block(ScopeTracker { has_closed: true, closed: false, location })),
                    );
                    break;
                },
                Some(Ok(Token::LeftBracket)) => {
                    let array = ArrayTracker::new(lexer);
                    result = Some(Ok(FieldValue::Array(array)));
                    break;
                },
                Some(Ok(tk)) => {
                    match tk {
                        Token::Int(_) | Token::Float(_) | Token::Boolean(_) | Token::RawText(_)
                        | Token::Text(_) | Token::Nil => {
                            if !is_colon {
                                result = Some(Err(EvalError::UnexpectedToken(tk)));
                            } else {
                                result = Some(Ok(FieldValue::Literal(tk)));
                            }
                        },
                        _ => {
                            result = Some(Err(EvalError::UnexpectedToken(tk)));
                        },
                    }
                    break;
                },
                None => {
                    result = Some(Err(EvalError::Lexical(LexError::UnexpectedEOF)));
                    break;
                },
            }
        }
        match result {
            Some(r) => r,
            None => Err(EvalError::Lexical(LexError::UnexpectedEOF)),
        }
    }

    /// Advances the object parser to the next entry. Returns `Some(Ok(_))`
    /// while entries are available, `Some(Err(_))` on a parse failure, and
    /// `None` once the object has ended.
    pub fn next(&mut self, lexer: &mut Lexer) -> (r: Option<Result<Field, EvalError>>)
        requires
            old(lexer).wf(),
        ensures
            final(lexer).wf(),
            final(lexer).input() == old(lexer).input(),
            (r, final(self)@, final(lexer)@) == scope_next(
                old(lexer).input(),
                old(self)@,
                old(lexer)@,
            ),
    {
        if self.closed {
            return None;
        }
        let ghost s = lexer.input();
        let mut result: Option<Option<Result<Field, EvalError>>> = None;
        loop
            invariant_except_break
                result is None,
                scope_next_open(s, self@, lexer@) == scope_next_open(s, old(self)@, old(lexer)@),
            invariant
                lexer.wf(),
                lexer.input() == s,
                !old(self).closed,
            ensures
                result matches Some(r) && (r, self@, lexer@) == scope_next_open(
                    s,
                    old(self)@,
                    old(lexer)@,
                ),
            decreases progress(s, lexer@),
        {
            proof {
                lemma_skip_newlines(s, lexer@);
            }
            match lexer.next_skip_ln() {
                Some(Ok(Token::Identifier(span))) => {
                    match self.extract_field(lexer) {
                        Err(err) => {
                            result = Some(Some(Err(err)));
                        },
                        Ok(val) => {
                            result = Some(Some(Ok(Field { key: span, value: val })));
                        },
                    }
                    break;
                },
                Some(Ok(Token::Comma)) | Some(Ok(Token::Newline)) => {},
                Some(Ok(Token::RightBrace)) => {
                    if !self.has_closed {
                        result = Some(Some(Err(EvalError::UnexpectedToken(Token::RightBrace))));
                    } else {
                        self.closed = true;
                        result = Some(None);
                    }
                    break;
                },
                Some(Err(err)) => {
                    result = Some(Some(Err(EvalError::Lexical(err))));
                    break;
                },
                Some(Ok(tk)) => {
                    result = Some(Some(Err(EvalError::UnexpectedToken(tk))));
                    break;
                },
                None => {
                    if self.has_closed {
                        result = Some(Some(Err(EvalError::Lexical(LexError::UnexpectedEOF))));
                    } else {
                        result = Some(None);
                    }
                    break;
                },
            }
        }
        match result {
            Some(r) => r,
            None => None,
        }
    }
}

impl ArrayTracker {
    /// A tracker for the array opened by the `[` handed out last.
    pub fn new(lexer: &Lexer) -> (r: Self)
        requires
            lexer.wf(),
            lexer@.end_token@ >= 1,
        ensures
            r@ == new_array_view(lexer@),
    {
        let mut location = lexer.location();
        location.retreat(1);
        ArrayTracker { location, closed: false, has_value: true }
    }

    /// Advances the array parser to the next element. Returns `Some(Ok(_))`
    /// while elements are available, `Some(Err(_))` on a parse failure, and
    /// `None` once the array has ended.
    pub fn next(&mut self, lexer: &mut Lexer) -> (r: Option<Result<FieldValue, EvalError>>)
        requires
            old(lexer).wf(),
        ensures
            final(lexer).wf(),
            final(lexer).input() == old(lexer).input(),
            (r, final(self)@, final(lexer)@) == array_next(
                old(lexer).input(),
                old(self)@,
                old(lexer)@,
            ),
    {
        if self.closed {
            return None;
        }
        let ghost s = lexer.input();
        let mut result: Option<Option<Result<FieldValue, EvalError>>> = None;
        loop
            invariant_except_break
                result is None,
                array_next_open(s, self@, lexer@) == array_next_open(s, old(self)@, old(lexer)@),
            invariant
                lexer.wf(),
                lexer.input() == s,
                !old(self).closed,
            ensures
                result matches Some(r) && (r, self@, lexer@) == array_next_open(
                    s,
                    old(self)@,
                    old(lexer)@,
                ),
            decreases progress(s, lexer@),
        {
            proof {
                lemma_next_step(s, lexer@);
            }
            match lexer.next() {
                Some(Ok(Token::Comma)) | Some(Ok(Token::Newline)) => {
                    self.has_value = true;
                },
                Some(Ok(Token::LeftBrace)) => {
                    if !self.has_value {
                        result = Some(Some(Err(EvalError::UnexpectedToken(Token::LeftBrace))));
                    } else {
                        self.has_value = false;
                        let sub_obj = ScopeTracker::new(lexer, true);
                        result = Some(Some(Ok(FieldValue::Block(sub_obj))));
                    }
                    break;
                },
                Some(Ok(Token::LeftBracket)) => {
                    if !self.has_value {
                        result = Some(Some(Err(EvalError::UnexpectedToken(Token::LeftBracket))));
                    } else {
                        self.has_value = false;
                        let sub_arr = ArrayTracker::new(lexer);
                        result = Some(Some(Ok(FieldValue::Array(sub_arr))));
                    }
                    break;
                },
                Some(Ok(Token::RightBracket)) => {
                    self.closed = true;
                    result = Some(None);
                    break;
                },
                Some(Ok(Token::Sub)) => {
                    let prev = lexer.prevlocation();
                    if !self.has_value {
                        result = Some(Some(Err(EvalError::UnexpectedToken(Token::Sub))));
                    } else {
                        self.has_value = false;
                        proof {
                            lemma_next_step(s, lexer@);
                        }
                        let r = match lexer.next() {
                            Some(Ok(Token::Int(i))) => Ok(FieldValue::Literal(Token::Int(-i))),
                            Some(Ok(Token::Float(f))) => Ok(FieldValue::Literal(Token::Float(f.negate()))),
                            Some(Ok(token)) => Err(EvalError::UnexpectedToken(token)),
                            Some(Err(err)) => Err(EvalError::Lexical(err)),
                            None => Err(EvalError::Lexical(LexError::UnexpectedEOF)),
                        };
                        lexer.set_prev_location(prev);
                        result = Some(Some(r));
                    }
                    break;
                },
                Some(Ok(tk)) => {
                    match tk {
                        Token::Int(_) | Token::Float(_) | Token::Boolean(_) | Token::Nil
                        | Token::Text(_) | Token::RawText(_) => {
                            if !self.has_value {
                                result = Some(Some(Err(EvalError::UnexpectedToken(tk))));
                            } else {
                                self.has_value = false;
                                result = Some(Some(Ok(FieldValue::Literal(tk))));
                            }
                        },
                        _ => {
                            result = Some(Some(Err(EvalError::UnexpectedToken(tk))));
                        },
                    }
                    break;
                },
                Some(Err(err)) => {
                    result = Some(Some(Err(EvalError::Lexical(err))));
                    break;
                },
                None => {
                    result = Some(Some(Err(EvalError::Lexical(LexError::UnexpectedEOF))));
                    break;
                },
            }
        }
        match result {
            Some(r) => r,
            None => None,
        }
    }
}

impl Field {
    /// The span of the key.
    pub fn span(&self) -> (r: Span)
        ensures
            r == self.key_of(),
    {
        self.key
    }

    /// The value.
    pub fn val(self) -> (r: FieldValue)
        ensures
            r == self.value_of(),
    {
        self.value
    }

    /// The key's text, taken from the input read by `lex`.
    pub fn get_name<'a>(&self, lex: &Lexer<'a>) -> (r: Option<&'a str>)
        requires
            lex.wf(),
        ensures
            r is Some <==> self.key_of().spec_is_text_in(lex.input()),
            r matches Some(n) ==> n.spec_bytes() == lex.input().subrange(
                self.key_of()@.start as int,
                self.key_of()@.end as int,
            ),
    {
        self.key.as_str(lex)
    }

    /// The value, borrowed.
    pub fn get_val(&self) -> (r: &FieldValue)
        ensures
            *r == self.value_of(),
    {
        &self.value
    }

    /// The key span and the value.
    pub fn tulpe(self) -> (r: (Span, FieldValue))
        ensures
            r == (self.key_of(), self.value_of()),
    {
        (self.key, self.value)
    }
}

impl FieldValue {
    /// The token a value starts with: the literal itself, `[` for an array
    /// and `{` for an object.
    pub fn as_token(&self) -> (r: Token)
        ensures
            r == match self {
                FieldValue::Array(_) => Token::LeftBracket,
                FieldValue::Block(_) => Token::LeftBrace,
                FieldValue::Literal(tk) => *tk,
            },
    {
        match self {
            FieldValue::Array(_) => Token::LeftBracket,
            FieldValue::Block(_) => Token::LeftBrace,
            FieldValue::Literal(tk) => *tk,
        }
    }
}

} // verus!
