//! The lexical grammar of Tero, stated over the bytes of a document: which
//! bytes are blanks, digits and key characters, where runs of them end, and
//! the value a run of digits denotes.
use vstd::prelude::*;
use vstd::utf8::*;
use crate::utf8_facts::{is_ascii_byte, lemma_ascii_byte_boundaries};

verus! {

/// Bytes skipped between tokens: space, tab, carriage return and NUL.
pub open spec fn is_blank(b: u8) -> bool {
    b == 0x20 || b == 0x09 || b == 0x0d || b == 0x00
}

/// Bytes skipped after the version keyword: space, tab and carriage return.
pub open spec fn is_version_space(b: u8) -> bool {
    b == 0x20 || b == 0x09 || b == 0x0d
}

/// `0` to `9`.
pub open spec fn is_digit(b: u8) -> bool {
    0x30 <= b <= 0x39
}

/// A digit or the separator `_`.
pub open spec fn is_number_char(b: u8) -> bool {
    is_digit(b) || b == 0x5f
}

/// A letter or `_`: the bytes a key may start with.
pub open spec fn is_ident_start(b: u8) -> bool {
    (0x61 <= b <= 0x7a) || (0x41 <= b <= 0x5a) || b == 0x5f
}

/// A letter, a digit or `_`: the bytes a key is made of.
pub open spec fn is_ident_char(b: u8) -> bool {
    is_ident_start(b) || is_digit(b)
}

/// The line break byte.
pub open spec fn newline() -> u8 {
    0x0a
}

/// The comment marker `#`.
pub open spec fn hash() -> u8 {
    0x23
}

/// The escape byte `\`.
pub open spec fn backslash() -> u8 {
    0x5c
}

/// The first line break at or after `pos`, or the end of `s`.
pub open spec fn line_end(s: Seq<u8>, pos: int) -> int
    decreases s.len() - pos,
{
    if pos < 0 || pos >= s.len() {
        s.len() as int
    } else if s[pos] == newline() {
        pos
    } else {
        line_end(s, pos + 1)
    }
}

/// The first position at or after `pos` whose byte is not one of those
/// `trim` removes.
pub open spec fn skip_trim(s: Seq<u8>, pos: int) -> int
    decreases s.len() - pos,
{
    if 0 <= pos < s.len() && is_blank(s[pos]) {
        skip_trim(s, pos + 1)
    } else {
        pos
    }
}

/// The first position at or after `pos` whose byte is not a version space.
pub open spec fn skip_version_space(s: Seq<u8>, pos: int) -> int
    decreases s.len() - pos,
{
    if 0 <= pos < s.len() && is_version_space(s[pos]) {
        skip_version_space(s, pos + 1)
    } else {
        pos
    }
}

/// The first position at or after `pos` that starts a token: blanks and
/// comments (a `#` up to the line break) are passed over.
pub open spec fn skip_blank(s: Seq<u8>, pos: int) -> int
    decreases s.len() - pos,
{
    if 0 <= pos < s.len() && is_blank(s[pos]) {
        skip_blank(s, pos + 1)
    } else if 0 <= pos < s.len() && s[pos] == hash() {
        proof {
            lemma_line_end_bounds(s, pos + 1);
        }
        skip_blank(s, line_end(s, pos + 1))
    } else {
        pos
    }
}

/// The end of the run of digits and `_` that starts at `pos`.
pub open spec fn number_end(s: Seq<u8>, pos: int) -> int
    decreases s.len() - pos,
{
    if 0 <= pos < s.len() && is_number_char(s[pos]) {
        number_end(s, pos + 1)
    } else {
        pos
    }
}

/// The end of the run of key characters that starts at `pos`.
pub open spec fn ident_end(s: Seq<u8>, pos: int) -> int
    decreases s.len() - pos,
{
    if 0 <= pos < s.len() && is_ident_char(s[pos]) {
        ident_end(s, pos + 1)
    } else {
        pos
    }
}

/// The value of the digits in `s[start..end]`, the `_` separators left out.
pub open spec fn digits_value(s: Seq<u8>, start: int, end: int) -> int
    decreases end - start,
{
    if end <= start {
        0
    } else if s[end - 1] == 0x5f {
        digits_value(s, start, end - 1)
    } else {
        digits_value(s, start, end - 1) * 10 + (s[end - 1] - 0x30)
    }
}

pub proof fn lemma_line_end_bounds(s: Seq<u8>, pos: int)
    requires
        0 <= pos,
    ensures
        pos <= line_end(s, pos) <= s.len() || (pos > s.len() && line_end(s, pos) == s.len()),
        line_end(s, pos) < s.len() ==> s[line_end(s, pos)] == newline(),
        forall|i: int| pos <= i < line_end(s, pos) ==> s[i] != newline(),
    decreases s.len() - pos,
{
    if pos < s.len() && s[pos] != newline() {
        lemma_line_end_bounds(s, pos + 1);
    }
}

pub proof fn lemma_skip_trim_bounds(s: Seq<u8>, pos: int)
    requires
        0 <= pos <= s.len(),
    ensures
        pos <= skip_trim(s, pos) <= s.len(),
        skip_trim(s, pos) < s.len() ==> !is_blank(s[skip_trim(s, pos)]),
        forall|i: int| pos <= i < skip_trim(s, pos) ==> is_blank(s[i]),
    decreases s.len() - pos,
{
    if pos < s.len() && is_blank(s[pos]) {
        lemma_skip_trim_bounds(s, pos + 1);
    }
}

pub proof fn lemma_skip_version_space_bounds(s: Seq<u8>, pos: int)
    requires
        0 <= pos <= s.len(),
    ensures
        pos <= skip_version_space(s, pos) <= s.len(),
        forall|i: int| pos <= i < skip_version_space(s, pos) ==> is_version_space(s[i]),
    decreases s.len() - pos,
{
    if pos < s.len() && is_version_space(s[pos]) {
        lemma_skip_version_space_bounds(s, pos + 1);
    }
}

pub proof fn lemma_skip_blank_bounds(s: Seq<u8>, pos: int)
    requires
        0 <= pos <= s.len(),
    ensures
        pos <= skip_blank(s, pos) <= s.len(),
        skip_blank(s, pos) < s.len() ==> !is_blank(s[skip_blank(s, pos)]) && s[skip_blank(
            s,
            pos,
        )] != hash(),
    decreases s.len() - pos,
{
    if pos < s.len() && is_blank(s[pos]) {
        lemma_skip_blank_bounds(s, pos + 1);
    } else if pos < s.len() && s[pos] == hash() {
        lemma_line_end_bounds(s, pos + 1);
        lemma_skip_blank_bounds(s, line_end(s, pos + 1));
    }
}

pub proof fn lemma_number_end_bounds(s: Seq<u8>, pos: int)
    requires
        0 <= pos <= s.len(),
    ensures
        pos <= number_end(s, pos) <= s.len(),
        number_end(s, pos) < s.len() ==> !is_number_char(s[number_end(s, pos)]),
        forall|i: int| pos <= i < number_end(s, pos) ==> is_number_char(s[i]),
    decreases s.len() - pos,
{
    if pos < s.len() && is_number_char(s[pos]) {
        lemma_number_end_bounds(s, pos + 1);
    }
}

pub proof fn lemma_ident_end_bounds(s: Seq<u8>, pos: int)
    requires
        0 <= pos <= s.len(),
    ensures
        pos <= ident_end(s, pos) <= s.len(),
        ident_end(s, pos) < s.len() ==> !is_ident_char(s[ident_end(s, pos)]),
        forall|i: int| pos <= i < ident_end(s, pos) ==> is_ident_char(s[i]),
    decreases s.len() - pos,
{
    if pos < s.len() && is_ident_char(s[pos]) {
        lemma_ident_end_bounds(s, pos + 1);
    }
}

/// The value of a run of digits never decreases as the run grows.
pub proof fn lemma_digits_value_monotone(s: Seq<u8>, start: int, mid: int, end: int)
    requires
        start <= mid <= end,
        forall|i: int| start <= i < end ==> is_number_char(s[i]),
    ensures
        0 <= digits_value(s, start, mid) <= digits_value(s, start, end),
    decreases end - mid,
{
    if mid < end {
        lemma_digits_value_monotone(s, start, mid, end - 1);
        lemma_digits_value_nonneg(s, start, end - 1);
    } else {
        lemma_digits_value_nonneg(s, start, end);
    }
}

pub proof fn lemma_digits_value_nonneg(s: Seq<u8>, start: int, end: int)
    requires
        forall|i: int| start <= i < end ==> is_number_char(s[i]),
    ensures
        0 <= digits_value(s, start, end),
    decreases end - start,
{
    if end > start {
        lemma_digits_value_nonneg(s, start, end - 1);
    }
}

/// A position that follows an ASCII byte of valid UTF-8 is a character
/// boundary.
pub proof fn lemma_after_ascii(s: Seq<u8>, pos: int)
    requires
        valid_utf8(s),
        0 < pos <= s.len(),
        is_ascii_byte(s[pos - 1]),
    ensures
        is_char_boundary(s, pos),
{
    lemma_ascii_byte_boundaries(s, pos - 1);
}

/// The position of an ASCII byte of valid UTF-8, or its end, is a
/// character boundary.
pub proof fn lemma_at_ascii_or_end(s: Seq<u8>, pos: int)
    requires
        valid_utf8(s),
        0 <= pos <= s.len(),
        pos < s.len() ==> is_ascii_byte(s[pos]),
    ensures
        is_char_boundary(s, pos),
{
    if pos < s.len() {
        lemma_ascii_byte_boundaries(s, pos);
    } else {
        is_char_boundary_start_end_of_seq(s);
    }
}

/// Passing over blanks and comments keeps the cursor on a character
/// boundary.
pub proof fn lemma_skip_blank_boundary(s: Seq<u8>, pos: int)
    requires
        valid_utf8(s),
        0 <= pos <= s.len(),
        is_char_boundary(s, pos),
    ensures
        is_char_boundary(s, skip_blank(s, pos)),
    decreases s.len() - pos,
{
    if pos < s.len() && is_blank(s[pos]) {
        lemma_after_ascii(s, pos + 1);
        lemma_skip_blank_boundary(s, pos + 1);
    } else if pos < s.len() && s[pos] == hash() {
        lemma_line_end_bounds(s, pos + 1);
        lemma_at_ascii_or_end(s, line_end(s, pos + 1));
        lemma_skip_blank_boundary(s, line_end(s, pos + 1));
    }
}

} // verus!
