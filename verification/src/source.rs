//! The source cursor: a read position over the bytes of a Tero document,
//! with the byte offsets (`Location`) and ranges (`Span`) that tokens carry.
use vstd::prelude::*;
use vstd::utf8::*;
use vstd::string::StringSliceAdditionalSpecFns;
use crate::utf8_facts::lemma_end_boundary;
use crate::token::LexError;
use crate::grammar::{is_blank, line_end, newline, skip_trim, lemma_line_end_bounds, lemma_skip_trim_bounds};

verus! {

broadcast use encode_utf8_valid_utf8;

/// Position in the source code, as a byte offset from the start of the input.
#[derive(Debug, PartialEq, Eq, Clone, Copy, Default)]
pub struct Location(u32);

/// Range in the source code: a starting `Location`, an ending byte offset,
/// and the line number used for error reporting.
#[derive(Debug, PartialEq, Eq, Clone, Copy)]
pub struct Span {
    start: Location,
    end: u32,
    line: u32,
}

/// The plain contents of a `Span`.
pub struct SpanView {
    pub start: u32,
    pub end: u32,
    pub line: u32,
}

impl View for Location {
    type V = u32;

    closed spec fn view(&self) -> u32 {
        self.0
    }
}

impl View for Span {
    type V = SpanView;

    closed spec fn view(&self) -> SpanView {
        SpanView { start: self.start.0, end: self.end, line: self.line }
    }
}

impl Location {
    /// The location whose offset is `offset`.
    pub closed spec fn at(offset: u32) -> Location {
        Location(offset)
    }

    /// The location of the cursor of `src`.
    pub fn new(src: &Src) -> (r: Self)
        requires
            src.wf(),
        ensures
            r@ == src.pos(),
    {
        Location(src.curr as u32)
    }

    /// The location of the first byte of the input.
    pub fn zero() -> (r: Self)
        ensures
            r@ == 0,
    {
        Location(0)
    }

    /// The byte offset of this location.
    pub fn get_offset(&self) -> (r: u32)
        ensures
            r == self@,
    {
        self.0
    }

    /// Moves the location `bytes` bytes back.
    pub fn retreat(&mut self, bytes: u32)
        requires
            old(self)@ >= bytes,
        ensures
            final(self)@ == old(self)@ - bytes,
    {
        self.0 = self.0 - bytes;
    }

    /// Moves the location `bytes` bytes forward.
    pub fn advance(&mut self, bytes: u32)
        requires
            old(self)@ + bytes <= u32::MAX,
        ensures
            final(self)@ == old(self)@ + bytes,
    {
        self.0 = self.0 + bytes;
    }
}

/// A location is determined by its offset.
pub broadcast proof fn lemma_location_at(offset: u32)
    ensures
        #[trigger] Location::at(offset)@ == offset,
{
}

/// A location is rebuilt from its offset.
pub broadcast proof fn lemma_location_of_view(l: Location)
    ensures
        #[trigger] Location::at(l@) == l,
{
}

impl Span {
    /// The span with the given contents.
    pub closed spec fn from_view(v: SpanView) -> Span {
        Span { start: Location(v.start), end: v.end, line: v.line }
    }

    /// The span that starts at `start` and ends at the cursor of `src`.
    pub fn new(line: u32, start: Location, src: &Src) -> (r: Self)
        requires
            src.wf(),
            start@ <= src.pos(),
        ensures
            r@ == (SpanView { start: start@, end: src.pos() as u32, line }),
    {
        Span { start, end: src.curr as u32, line }
    }

    /// The span from `start` to `end`.
    pub fn new_from_end(line: u32, start: Location, end: Location) -> (r: Self)
        requires
            start@ <= end@,
        ensures
            r@ == (SpanView { start: start@, end: end@, line }),
    {
        Span { start, end: end.0, line }
    }

    /// Length of the span in bytes.
    pub fn len(&self) -> (r: u32)
        requires
            self@.start <= self@.end,
        ensures
            r == self@.end - self@.start,
    {
        self.end - self.start.0
    }

    /// The line the span was found on.
    pub fn line(&self) -> (r: u32)
        ensures
            r == self@.line,
    {
        self.line
    }

    /// The starting location.
    pub fn get_start(&self) -> (r: Location)
        ensures
            r@ == self@.start,
    {
        self.start
    }

    /// The ending byte offset.
    pub fn get_end(&self) -> (r: u32)
        ensures
            r == self@.end,
    {
        self.end
    }

    /// True when the span lies inside the input of `src`.
    pub open spec fn spec_valid_in(&self, input: Seq<u8>) -> bool {
        self@.start <= self@.end <= input.len()
    }

    /// True when the span lies inside the input of `src`.
    pub fn is_valid_with_src(&self, src: &Src) -> (r: bool)
        requires
            src.wf(),
        ensures
            r == self.spec_valid_in(src.input()),
    {
        self.start.0 <= self.end && (self.end as usize) <= src.end()
    }

    /// True when the span lies inside `input` and both ends are character
    /// boundaries, so that its bytes form a string.
    pub open spec fn spec_is_text_in(&self, input: Seq<u8>) -> bool {
        &&& self.spec_valid_in(input)
        &&& is_char_boundary(input, self@.start as int)
        &&& is_char_boundary(input, self@.end as int)
    }

    /// The text covered by the span.
    pub fn as_str_with_src_unchecked<'a>(&self, src: &Src<'a>) -> (r: &'a str)
        requires
            src.wf(),
            self.spec_is_text_in(src.input()),
        ensures
            r.spec_bytes() == src.input().subrange(self@.start as int, self@.end as int),
    {
        src.slice(self.start.0 as usize, self.end as usize)
    }

}

/// A span is determined by its contents.
pub broadcast proof fn lemma_span_from_view(v: SpanView)
    ensures
        #[trigger] Span::from_view(v)@ == v,
{
}

/// A span is rebuilt from its contents.
pub broadcast proof fn lemma_span_of_view(s: Span)
    ensures
        #[trigger] Span::from_view(s@) == s,
{
}

/// What a scanning callback asks the cursor to do with the byte it was shown.
#[derive(Debug, PartialEq, Eq, Clone, Copy)]
pub enum ScalarStep {
    /// Consume the byte and keep scanning.
    Continue,
    /// Stop before the byte.
    Break,
    /// Consume the byte and stop.
    BreakAndConsume,
}

/// A byte-level word that can be read at the cursor.
pub trait SrcWord: Sized {
    /// Number of bytes in the word.
    spec fn width() -> nat;

    /// The word spelled by `bytes`, which has `width()` bytes.
    spec fn spec_from_bytes(bytes: Seq<u8>) -> Self;

    /// Reads the word stored at `pos` in `bytes`.
    fn read_at(bytes: &[u8], pos: usize) -> (r: Self)
        requires
            pos + Self::width() <= bytes@.len(),
        ensures
            r == Self::spec_from_bytes(bytes@.subrange(pos as int, pos + Self::width()));
}

impl SrcWord for u8 {
    open spec fn width() -> nat {
        1
    }

    open spec fn spec_from_bytes(bytes: Seq<u8>) -> u8 {
        bytes[0]
    }

    fn read_at(bytes: &[u8], pos: usize) -> (r: u8) {
        bytes[pos]
    }
}

/// A read cursor over the bytes of a document.
pub struct Src<'a> {
    text: &'a str,
    curr: usize,
    has_simd_padding: bool,
}

impl<'a> Src<'a> {
    /// The bytes of the document.
    pub closed spec fn input(&self) -> Seq<u8> {
        self.text.spec_bytes()
    }

    /// The cursor, as an offset into `input()`.
    pub closed spec fn pos(&self) -> int {
        self.curr as int
    }

    /// Whether the cursor was created for padded input.
    pub closed spec fn padded(&self) -> bool {
        self.has_simd_padding
    }

    /// The cursor lies inside the document, whose offsets fit in a `u32`.
    pub closed spec fn wf(&self) -> bool {
        &&& self.curr <= self.text.spec_bytes().len()
        &&& self.text.spec_bytes().len() < u32::MAX
    }

    /// The cursor is the document `input` at `pos`.
    pub open spec fn reads(&self, input: Seq<u8>, pos: int) -> bool {
        self.wf() && self.input() == input && self.pos() == pos
    }

    /// The bytes not yet read.
    pub open spec fn rest(&self) -> Seq<u8> {
        self.input().subrange(self.pos(), self.input().len() as int)
    }

    /// A cursor at the start of `input`.
    pub fn new(input: &'a str, has_simd_padding: bool) -> (r: Self)
        requires
            input.spec_bytes().len() < u32::MAX,
        ensures
            r.wf(),
            r.input() == input.spec_bytes(),
            r.pos() == 0,
            r.padded() == has_simd_padding,
    {
        Src { text: input, curr: 0, has_simd_padding }
    }

    /// Moves the cursor back to the start.
    pub(crate) fn reset(&mut self)
        requires
            old(self).wf(),
        ensures
            final(self).wf(),
            final(self).input() == old(self).input(),
            final(self).padded() == old(self).padded(),
            final(self).pos() == 0,
    {
        self.curr = 0;
    }

    /// Number of bytes not yet read.
    pub fn len(&self) -> (r: usize)
        requires
            self.wf(),
        ensures
            r == self.input().len() - self.pos(),
    {
        self.text.len() - self.curr
    }

    /// The cursor, as a byte offset.
    pub fn curr(&self) -> (r: usize)
        ensures
            r == self.pos(),
    {
        self.curr
    }

    /// The offset one past the last byte.
    pub fn end(&self) -> (r: usize)
        requires
            self.wf(),
        ensures
            r == self.input().len(),
    {
        self.text.len()
    }

    /// Reads the word stored at the cursor, without moving it.
    pub fn read<T: SrcWord>(&self) -> (r: T)
        requires
            self.wf(),
            self.pos() + T::width() <= self.input().len(),
        ensures
            r == T::spec_from_bytes(self.input().subrange(self.pos(), self.pos() + T::width())),
    {
        T::read_at(self.text.as_bytes(), self.curr)
    }

    /// True when at least `b` bytes are left.
    pub fn is_size(&self, b: usize) -> (r: bool)
        requires
            self.wf(),
        ensures
            r == (self.pos() + b <= self.input().len()),
    {
        b <= self.text.len() - self.curr
    }

    /// True when a whole 16-byte block can be read: 16 bytes are left, or
    /// the input is padded and some byte is left.
    pub fn can_simd(&self) -> (r: bool)
        requires
            self.wf(),
        ensures
            r == (self.pos() + 16 <= self.input().len() || (self.padded() && self.pos()
                < self.input().len())),
    {
        self.is_size(16) || (self.has_simd_padding && self.is_not_empty())
    }

    /// True when some byte is left.
    pub fn is_not_empty(&self) -> (r: bool)
        requires
            self.wf(),
        ensures
            r == (self.pos() < self.input().len()),
    {
        self.curr < self.text.len()
    }

    /// True when every byte has been read.
    pub fn is_empty(&self) -> (r: bool)
        requires
            self.wf(),
        ensures
            r == (self.pos() >= self.input().len()),
    {
        self.curr >= self.text.len()
    }

    /// Moves the cursor `bytes` bytes forward.
    pub fn advance(&mut self, bytes: usize)
        requires
            old(self).wf(),
            old(self).pos() + bytes <= old(self).input().len(),
        ensures
            final(self).wf(),
            final(self).input() == old(self).input(),
            final(self).padded() == old(self).padded(),
            final(self).pos() == old(self).pos() + bytes,
    {
        self.curr = self.curr + bytes;
    }

    /// Moves the cursor `bytes` bytes back.
    pub fn retreat(&mut self, bytes: usize)
        requires
            old(self).wf(),
            old(self).pos() >= bytes,
        ensures
            final(self).wf(),
            final(self).input() == old(self).input(),
            final(self).padded() == old(self).padded(),
            final(self).pos() == old(self).pos() - bytes,
    {
        self.curr = self.curr - bytes;
    }

    /// The byte at the cursor, if any.
    pub fn get_byte(&self) -> (r: Option<u8>)
        requires
            self.wf(),
        ensures
            r == (if self.pos() < self.input().len() {
                Some(self.input()[self.pos()])
            } else {
                None
            }),
    {
        if self.is_not_empty() {
            Some(self.text.as_bytes()[self.curr])
        } else {
            None
        }
    }

    /// The byte at the cursor, which must exist.
    pub fn get_byte_unchecked(&self) -> (r: u8)
        requires
            self.wf(),
            self.pos() < self.input().len(),
        ensures
            r == self.input()[self.pos()],
    {
        self.text.as_bytes()[self.curr]
    }

    /// Brings a cursor that lies past the end back to the end; a cursor
    /// inside the document is left where it is.
    pub fn reajust(&mut self)
        requires
            old(self).wf(),
        ensures
            *final(self) == *old(self),
    {
        if !self.is_not_empty() {
            self.curr = self.text.len();
        }
    }

    /// Offers each byte from the cursor on to `f`, moving over the bytes
    /// for which it answers `Continue`. Returns `true` when `f` stopped the
    /// scan, `false` when the input ran out.
    pub fn scalar_with<F: Fn(u8) -> ScalarStep>(&mut self, f: F) -> (stopped: bool)
        requires
            old(self).wf(),
            forall|b: u8| call_requires(f, (b,)),
        ensures
            final(self).wf(),
            final(self).input() == old(self).input(),
            final(self).padded() == old(self).padded(),
            old(self).pos() <= final(self).pos() <= final(self).input().len(),
            !stopped ==> final(self).pos() == final(self).input().len() && forall|i: int|
                old(self).pos() <= i < final(self).pos() ==> call_ensures(
                    f,
                    (old(self).input()[i],),
                    ScalarStep::Continue,
                ),
            stopped ==> {
                ||| {
                    &&& final(self).pos() < final(self).input().len()
                    &&& call_ensures(f, (old(self).input()[final(self).pos()],), ScalarStep::Break)
                    &&& forall|i: int|
                        old(self).pos() <= i < final(self).pos() ==> call_ensures(
                            f,
                            (old(self).input()[i],),
                            ScalarStep::Continue,
                        )
                }
                ||| {
                    &&& old(self).pos() < final(self).pos()
                    &&& call_ensures(
                        f,
                        (old(self).input()[final(self).pos() - 1],),
                        ScalarStep::BreakAndConsume,
                    )
                    &&& forall|i: int|
                        old(self).pos() <= i < final(self).pos() - 1 ==> call_ensures(
                            f,
                            (old(self).input()[i],),
                            ScalarStep::Continue,
                        )
                }
            },
    {
        let ghost start = self.curr as int;
        while self.is_not_empty()
            invariant
                self.wf(),
                self.input() == old(self).input(),
                self.padded() == old(self).padded(),
                start == old(self).pos(),
                start <= self.pos() <= self.input().len(),
                forall|b: u8| call_requires(f, (b,)),
                forall|i: int|
                    start <= i < self.pos() ==> call_ensures(
                        f,
                        (old(self).input()[i],),
                        ScalarStep::Continue,
                    ),
            decreases self.input().len() - self.pos(),
        {
            let ch = self.get_byte_unchecked();
            match f(ch) {
                ScalarStep::Continue => self.advance(1),
                ScalarStep::Break => return true,
                ScalarStep::BreakAndConsume => {
                    self.advance(1);
                    return true;
                },
            }
        }
        false
    }

    /// Like `scalar_with`, but `f` may fail; its error is handed back with
    /// the cursor on the byte that caused it.
    pub fn scalar_with_error<F: Fn(u8) -> Result<ScalarStep, LexError>>(&mut self, f: F) -> (r:
        Result<bool, LexError>)
        requires
            old(self).wf(),
            forall|b: u8| call_requires(f, (b,)),
        ensures
            final(self).wf(),
            final(self).input() == old(self).input(),
            final(self).padded() == old(self).padded(),
            old(self).pos() <= final(self).pos() <= final(self).input().len(),
            forall|i: int|
                old(self).pos() <= i < final(self).pos() - 1 ==> call_ensures(
                    f,
                    (old(self).input()[i],),
                    Ok(ScalarStep::Continue),
                ),
            r == Ok::<bool, LexError>(false) ==> final(self).pos() == final(self).input().len() && (
            final(self).pos() > old(self).pos() ==> call_ensures(
                f,
                (old(self).input()[final(self).pos() - 1],),
                Ok(ScalarStep::Continue),
            )),
            r matches Err(e) ==> final(self).pos() < final(self).input().len() && call_ensures(
                f,
                (old(self).input()[final(self).pos()],),
                Err(e),
            ) && (final(self).pos() > old(self).pos() ==> call_ensures(
                f,
                (old(self).input()[final(self).pos() - 1],),
                Ok(ScalarStep::Continue),
            )),
            r == Ok::<bool, LexError>(true) ==> {
                ||| {
                    &&& final(self).pos() < final(self).input().len()
                    &&& call_ensures(
                        f,
                        (old(self).input()[final(self).pos()],),
                        Ok(ScalarStep::Break),
                    )
                    &&& (final(self).pos() > old(self).pos() ==> call_ensures(
                        f,
                        (old(self).input()[final(self).pos() - 1],),
                        Ok(ScalarStep::Continue),
                    ))
                }
                ||| {
                    &&& old(self).pos() < final(self).pos()
                    &&& call_ensures(
                        f,
                        (old(self).input()[final(self).pos() - 1],),
                        Ok(ScalarStep::BreakAndConsume),
                    )
                }
            },
    {
        let ghost start = self.curr as int;
        while self.is_not_empty()
            invariant
                self.wf(),
                self.input() == old(self).input(),
                self.padded() == old(self).padded(),
                start == old(self).pos(),
                start <= self.pos() <= self.input().len(),
                forall|b: u8| call_requires(f, (b,)),
                forall|i: int|
                    start <= i < self.pos() ==> call_ensures(
                        f,
                        (old(self).input()[i],),
                        Ok(ScalarStep::Continue),
                    ),
            decreases self.input().len() - self.pos(),
        {
            let ch = self.get_byte_unchecked();
            match f(ch) {
                Ok(ScalarStep::Continue) => self.advance(1),
                Ok(ScalarStep::Break) => return Ok(true),
                Ok(ScalarStep::BreakAndConsume) => {
                    self.advance(1);
                    return Ok(true);
                },
                Err(e) => return Err(e),
            }
        }
        Ok(false)
    }

    /// Moves over the bytes for which `keep` holds. Returns `true` when a
    /// byte for which it does not hold stopped the scan.
    pub fn ignore_src_condition<F: Fn(u8) -> bool>(&mut self, keep: F) -> (stopped: bool)
        requires
            old(self).wf(),
            forall|b: u8| call_requires(keep, (b,)),
        ensures
            final(self).wf(),
            final(self).input() == old(self).input(),
            final(self).padded() == old(self).padded(),
            old(self).pos() <= final(self).pos() <= final(self).input().len(),
            forall|i: int|
                old(self).pos() <= i < final(self).pos() ==> call_ensures(
                    keep,
                    (old(self).input()[i],),
                    true,
                ),
            stopped <==> final(self).pos() < final(self).input().len(),
            stopped ==> call_ensures(keep, (old(self).input()[final(self).pos()],), false),
    {
        let ghost start = self.curr as int;
        while self.is_not_empty()
            invariant
                self.wf(),
                self.input() == old(self).input(),
                self.padded() == old(self).padded(),
                start == old(self).pos(),
                start <= self.pos() <= self.input().len(),
                forall|b: u8| call_requires(keep, (b,)),
                forall|i: int|
                    start <= i < self.pos() ==> call_ensures(keep, (old(self).input()[i],), true),
            decreases self.input().len() - self.pos(),
        {
            let ch = self.get_byte_unchecked();
            if keep(ch) {
                self.advance(1);
            } else {
                return true;
            }
        }
        false
    }

    /// Moves the cursor over spaces, tabs, carriage returns and NUL bytes.
    pub fn trim(&mut self)
        requires
            old(self).wf(),
        ensures
            final(self).wf(),
            final(self).input() == old(self).input(),
            final(self).padded() == old(self).padded(),
            final(self).pos() == skip_trim(old(self).input(), old(self).pos()),
    {
        while self.is_not_empty()
            invariant
                self.wf(),
                self.input() == old(self).input(),
                self.padded() == old(self).padded(),
                old(self).pos() <= self.pos() <= self.input().len(),
                skip_trim(self.input(), self.pos()) == skip_trim(
                    old(self).input(),
                    old(self).pos(),
                ),
            decreases self.input().len() - self.pos(),
        {
            let ch = self.get_byte_unchecked();
            if ch == 0x20 || ch == 0x09 || ch == 0x0d || ch == 0x00 {
                self.advance(1);
            } else {
                return;
            }
        }
    }

    /// Moves the cursor to the next line break, or to the end when the
    /// current line is the last one.
    pub fn skip_current_line(&mut self)
        requires
            old(self).wf(),
        ensures
            final(self).wf(),
            final(self).input() == old(self).input(),
            final(self).padded() == old(self).padded(),
            final(self).pos() == line_end(old(self).input(), old(self).pos()),
    {
        while self.is_not_empty()
            invariant
                self.wf(),
                self.input() == old(self).input(),
                self.padded() == old(self).padded(),
                old(self).pos() <= self.pos() <= self.input().len(),
                line_end(self.input(), self.pos()) == line_end(
                    old(self).input(),
                    old(self).pos(),
                ),
            decreases self.input().len() - self.pos(),
        {
            if self.get_byte_unchecked() == 0x0a {
                return;
            }
            self.advance(1);
        }
    }

    /// The offset of position `p`, which lies inside the document.
    pub fn offset(&self, p: usize) -> (r: u32)
        requires
            self.wf(),
            p <= self.input().len(),
        ensures
            r == p,
    {
        p as u32
    }

    /// The character that starts at the cursor, which must be a character
    /// boundary before the end.
    pub(crate) fn char_at_cursor(&self) -> (c: char)
        requires
            self.wf(),
            self.pos() < self.input().len(),
            is_char_boundary(self.input(), self.pos()),
        ensures
            c == decode_utf8(self.rest())[0],
    {
        let (_, rest) = self.text.split_at(self.curr);
        proof {
            lemma_end_boundary(self.input());
            lemma_boundary_shift(self.input(), self.pos(), self.input().len() as int);
            assert(rest.spec_bytes() =~= self.rest());
            assert(rest@.len() > 0) by {
                if rest@.len() == 0 {
                    assert(encode_utf8(rest@) =~= Seq::<u8>::empty());
                }
            }
        }
        let mut chars = rest.chars();
        proof {
            broadcast use vstd::string::axiom_spec_iter;
        }
        let c = chars.next();
        proof {
            broadcast use vstd::string::next_postcondition;
            broadcast use encode_utf8_decode_utf8;
            assert(decode_utf8(encode_utf8(rest@)) == rest@);
        }
        match c {
            Some(c) => c,
            None => {
                proof {
                    assert(false);
                }
                ' '
            },
        }
    }

    /// The bytes of the document.
    pub(crate) fn bytes(&self) -> (r: &'a [u8])
        requires
            self.wf(),
        ensures
            r@ == self.input(),
    {
        self.text.as_bytes()
    }

    /// The character that starts at offset `i`, which must be a character
    /// boundary before the end.
    pub(crate) fn char_at(&self, i: usize) -> (c: char)
        requires
            self.wf(),
            i < self.input().len(),
            is_char_boundary(self.input(), i as int),
        ensures
            c == decode_utf8(self.input().subrange(i as int, self.input().len() as int))[0],
    {
        let (_, rest) = self.text.split_at(i);
        proof {
            lemma_end_boundary(self.input());
            lemma_boundary_shift(self.input(), i as int, self.input().len() as int);
            assert(rest.spec_bytes() =~= self.input().subrange(i as int, self.input().len() as int));
            assert(rest@.len() > 0) by {
                if rest@.len() == 0 {
                    assert(encode_utf8(rest@) =~= Seq::<u8>::empty());
                }
            }
        }
        let mut chars = rest.chars();
        proof {
            broadcast use vstd::string::axiom_spec_iter;
        }
        let c = chars.next();
        proof {
            broadcast use vstd::string::next_postcondition;
            broadcast use encode_utf8_decode_utf8;
            assert(decode_utf8(encode_utf8(rest@)) == rest@);
        }
        match c {
            Some(c) => c,
            None => {
                proof {
                    assert(false);
                }
                ' '
            },
        }
    }

    /// The byte at offset `i` of the document.
    pub(crate) fn byte_at(&self, i: usize) -> (r: u8)
        requires
            self.wf(),
            i < self.input().len(),
        ensures
            r == self.input()[i as int],
    {
        self.text.as_bytes()[i]
    }

    /// True when offset `i` is a character boundary of the document.
    pub(crate) fn is_boundary(&self, i: usize) -> (r: bool)
        requires
            self.wf(),
        ensures
            r == is_char_boundary(self.input(), i as int),
    {
        self.text.is_char_boundary(i)
    }

    /// The text between two character boundaries of the document.
    pub(crate) fn slice(&self, start: usize, end: usize) -> (r: &'a str)
        requires
            self.wf(),
            start <= end <= self.input().len(),
            is_char_boundary(self.input(), start as int),
            is_char_boundary(self.input(), end as int),
        ensures
            r.spec_bytes() == self.input().subrange(start as int, end as int),
    {
        let (_, tail) = self.text.split_at(start);
        proof {
            lemma_boundary_shift(self.input(), start as int, end as int);
        }
        let (piece, _) = tail.split_at(end - start);
        piece
    }
}

/// What the invariant of a cursor tells about it.
pub broadcast proof fn lemma_src_wf(src: &Src)
    requires
        #[trigger] src.wf(),
    ensures
        0 <= src.pos() <= src.input().len(),
        src.input().len() < u32::MAX,
        valid_utf8(src.input()),
{
}

/// A boundary past `start` stays a boundary of the text that begins at
/// `start`.
proof fn lemma_boundary_shift(bytes: Seq<u8>, start: int, end: int)
    requires
        valid_utf8(bytes),
        0 <= start <= end <= bytes.len(),
        is_char_boundary(bytes, start),
        is_char_boundary(bytes, end),
    ensures
        is_char_boundary(bytes.subrange(start, bytes.len() as int), end - start),
    decreases bytes.len(),
{
    if start == 0 {
        assert(bytes.subrange(0, bytes.len() as int) =~= bytes);
    } else {
        let l = length_of_first_scalar(bytes);
        let tail = pop_first_scalar(bytes);
        assert(valid_utf8(tail));
        reveal_with_fuel(is_char_boundary, 2);
        assert(start >= l);
        assert(is_char_boundary(tail, start - l));
        assert(is_char_boundary(tail, end - l));
        lemma_boundary_shift(tail, start - l, end - l);
        assert(bytes.subrange(start, bytes.len() as int) =~= tail.subrange(
            start - l,
            tail.len() as int,
        ));
    }
}

} // verus!
