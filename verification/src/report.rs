//! The source excerpt shown in error messages: the line around a location,
//! cut to about 32 characters on each side, with the column of the
//! location.
use vstd::prelude::*;
use vstd::utf8::*;
use vstd::string::StringSliceAdditionalSpecFns;
use crate::source::{Src, Span, Location, lemma_src_wf};
use crate::lexer::Lexer;
use crate::grammar::newline;
use crate::text::{decimal, push_char, push_decimal, decimal_len};
use crate::utf8_facts::{lemma_end_boundary, lemma_ascii_byte_boundaries};

verus! {

broadcast use {lemma_src_wf, encode_utf8_decode_utf8};

/// Offset `i` starts a character on screen: it is past the end (where one
/// more column is counted) or holds a byte that is not a UTF-8 continuation.
pub open spec fn is_column(s: Seq<u8>, i: int) -> bool {
    i >= s.len() || !is_continuation_byte(s[i])
}

/// The end of the excerpt to the right of offset `i`, after `count`
/// characters: the line break, the end of the input, or the first character
/// after 32 of them (then `true`: the line goes on).
pub open spec fn right_scan(s: Seq<u8>, i: int, count: int) -> (int, bool)
    decreases s.len() - i,
{
    if i < 0 || i >= s.len() {
        (s.len() as int, false)
    } else if count >= 32 && !is_continuation_byte(s[i]) {
        (i, true)
    } else if s[i] == newline() {
        (i, false)
    } else {
        right_scan(
            s,
            i + 1,
            count + if is_continuation_byte(s[i]) {
                0int
            } else {
                1int
            },
        )
    }
}

/// The first byte of the character that holds offset `i`.
pub open spec fn back_to_leading(s: Seq<u8>, i: int) -> int
    decreases i,
{
    if 0 < i < s.len() && is_continuation_byte(s[i]) {
        back_to_leading(s, i - 1)
    } else {
        i
    }
}

/// The start of the excerpt to the left, scanning down from offset `i`
/// after `left` columns: stops at a line break below `focus` (which is not
/// counted, and takes one column off), at the start of the input, or after
/// 32 columns (then `true`: the line goes on to the left). Returns whether
/// it was cut, the column count and the start offset.
pub open spec fn left_scan(s: Seq<u8>, i: int, left: int, focus: int) -> (bool, int, int)
    decreases i + 1,
{
    if i < 0 {
        (false, left, 0)
    } else if left == 32 {
        (true, 32, back_to_leading(s, i))
    } else if i < focus && i < s.len() && s[i] == newline() {
        (
            false,
            if left > 0 {
                left - 1
            } else {
                0
            },
            i + 1,
        )
    } else {
        left_scan(
            s,
            i - 1,
            left + if is_column(s, i) {
                1int
            } else {
                0int
            },
            focus,
        )
    }
}

/// The offset an error at location `l` is shown at: the last byte when `l`
/// is the end of a non-empty input; nothing when `l` lies past the end.
pub open spec fn location_focus(s: Seq<u8>, l: int) -> Option<int> {
    if l > s.len() {
        None
    } else if l == s.len() && s.len() > 0 {
        Some(s.len() - 1)
    } else {
        Some(l)
    }
}

/// `...`
pub open spec fn dots() -> Seq<char> {
    seq!['.', '.', '.']
}

/// The excerpt for an error at location `loc` on line `line`: the line
/// number, ` | `, the text around the location (with `...` where it was
/// cut), and the column under which the caret goes.
pub open spec fn report_line(s: Seq<u8>, line: u32, loc: int) -> Option<(int, Seq<char>)> {
    match location_focus(s, loc) {
        None => None,
        Some(curr) => {
            let (e, rc) = right_scan(s, curr, 0);
            let (lc, left, ls) = left_scan(s, curr + 1, 0, curr);
            let text = decimal(line as nat) + seq![' ', '|', ' '] + (if lc {
                dots()
            } else {
                Seq::<char>::empty()
            }) + decode_utf8(s.subrange(ls, e)) + (if rc {
                dots()
            } else {
                Seq::<char>::empty()
            });
            Some(
                (
                    left + decimal(line as nat).len() + 3 + if lc {
                        3int
                    } else {
                        0int
                    },
                    text,
                ),
            )
        },
    }
}

pub proof fn lemma_right_scan(s: Seq<u8>, i: int, count: int)
    requires
        valid_utf8(s),
        0 <= i <= s.len(),
    ensures
        i <= right_scan(s, i, count).0 <= s.len(),
        is_char_boundary(s, right_scan(s, i, count).0),
    decreases s.len() - i,
{
    if i >= s.len() {
        lemma_end_boundary(s);
    } else if count >= 32 && !is_continuation_byte(s[i]) {
        is_char_boundary_iff_not_is_continuation_byte(s, i);
    } else if s[i] == newline() {
        is_char_boundary_iff_not_is_continuation_byte(s, i);
    } else {
        lemma_right_scan(
            s,
            i + 1,
            count + if is_continuation_byte(s[i]) {
                0int
            } else {
                1int
            },
        );
    }
}

pub proof fn lemma_back_to_leading(s: Seq<u8>, i: int)
    requires
        valid_utf8(s),
        0 <= i < s.len(),
    ensures
        0 <= back_to_leading(s, i) <= i,
        is_char_boundary(s, back_to_leading(s, i)),
    decreases i,
{
    if 0 < i && is_continuation_byte(s[i]) {
        lemma_back_to_leading(s, i - 1);
    } else if i == 0 {
        lemma_end_boundary(s);
    } else {
        is_char_boundary_iff_not_is_continuation_byte(s, i);
    }
}

pub proof fn lemma_left_scan(s: Seq<u8>, i: int, left: int, focus: int)
    requires
        valid_utf8(s),
        0 <= focus <= s.len(),
        -1 <= i <= focus + 1,
        0 <= left <= 32,
        left <= focus + 1 - i,
    ensures
        0 <= left_scan(s, i, left, focus).1 <= 32,
        0 <= left_scan(s, i, left, focus).2 <= focus,
        is_char_boundary(s, left_scan(s, i, left, focus).2),
    decreases i + 1,
{
    if i < 0 {
        lemma_end_boundary(s);
    } else if left == 32 {
        lemma_back_to_leading(s, i);
    } else if i < focus && i < s.len() && s[i] == newline() {
        lemma_ascii_byte_boundaries(s, i);
    } else {
        lemma_left_scan(
            s,
            i - 1,
            left + if is_column(s, i) {
                1int
            } else {
                0int
            },
            focus,
        );
    }
}

impl<'a> Src<'a> {
    /// The offset an error at location `l` is shown at.
    fn ptr_from_location(&self, l: Location) -> (r: Option<usize>)
        requires
            self.wf(),
        ensures
            r matches Some(p) ==> Some(p as int) == location_focus(self.input(), l@ as int),
            r is None <==> location_focus(self.input(), l@ as int) is None,
    {
        let calc = l.get_offset() as usize;
        let end = self.end();
        if calc > end {
            None
        } else if calc == end && 0 < end {
            Some(calc - 1)
        } else {
            Some(calc)
        }
    }

    /// Scans left from offset `start` for the start of the excerpt: stops
    /// at a line break below `start - 1`, at the start of the input, or
    /// after 32 columns. Returns whether the line was cut, the number of
    /// columns and the start offset.
    pub fn prevleft(&self, start: usize) -> (r: (bool, u32, usize))
        requires
            self.wf(),
            1 <= start <= self.input().len() + 1,
        ensures
            (r.0, r.1 as int, r.2 as int) == left_scan(self.input(), start as int, 0, start - 1),
    {
        let ghost s = self.input();
        let len = self.end();
        let mut left: u32 = 0;
        let mut i: usize = start;
        loop
            invariant
                self.wf(),
                s == self.input(),
                len == s.len(),
                1 <= start <= len + 1,
                i <= start,
                left <= 32,
                left_scan(s, i as int, left as int, start - 1) == left_scan(s, start as int, 0, start - 1),
            decreases i,
        {
            if left == 32 {
                let mut j = i;
                while 0 < j && j < len && 0x80 <= self.byte_at(j) && self.byte_at(j) <= 0xbf
                    invariant
                        self.wf(),
                        s == self.input(),
                        len == s.len(),
                        j <= i,
                        back_to_leading(s, j as int) == back_to_leading(s, i as int),
                    decreases j,
                {
                    j = j - 1;
                }
                return (true, 32, j);
            }
            if i < start - 1 && i < len && self.byte_at(i) == 0x0a {
                let l = if left > 0 {
                    left - 1
                } else {
                    0
                };
                return (false, l, i + 1);
            }
            let ghost before = left;
            if i >= len || !(0x80 <= self.byte_at(i) && self.byte_at(i) <= 0xbf) {
                left = left + 1;
            }
            assert(left_scan(s, i as int, before as int, start - 1) == left_scan(s, i - 1, left as int, start - 1));
            if i == 0 {
                assert(left_scan(s, -1, left as int, start - 1) == (false, left as int, 0int));
                return (false, left, 0);
            }
            i = i - 1;
        }
    }

    /// The end of the excerpt to the right of `curr`, and whether the line
    /// goes on past it.
    fn right_end(&self, curr: usize) -> (r: (usize, bool))
        requires
            self.wf(),
            curr <= self.input().len(),
        ensures
            (r.0 as int, r.1) == right_scan(self.input(), curr as int, 0),
    {
        let ghost s = self.input();
        let len = self.end();
        let mut i = curr;
        let mut count: u32 = 0;
        loop
            invariant
                self.wf(),
                s == self.input(),
                len == s.len(),
                curr <= i <= len,
                count <= 32,
                right_scan(s, i as int, count as int) == right_scan(s, curr as int, 0),
            decreases len - i,
        {
            if i >= len {
                return (len, false);
            }
            let b = self.byte_at(i);
            let cont = 0x80 <= b && b <= 0xbf;
            if count >= 32 && !cont {
                return (i, true);
            }
            if b == 0x0a {
                return (i, false);
            }
            if !cont {
                count = count + 1;
            }
            i = i + 1;
        }
    }

    /// The excerpt for an error at location `start` on line `line`: the
    /// column under which the caret goes, and the text `line | excerpt`.
    /// `None` when the location lies past the end of the input.
    pub fn gen_error(&self, line: u32, start: Location) -> (r: Option<(u32, String)>)
        requires
            self.wf(),
        ensures
            match report_line(self.input(), line, start@ as int) {
                None => r is None,
                Some((col, text)) => r matches Some((c, t)) && c == col && t@ == text,
            },
    {
        let ghost s = self.input();
        let curr = match self.ptr_from_location(start) {
            Some(c) => c,
            None => return None,
        };
        let (end, right_continue) = self.right_end(curr);
        let (left_continue, mut left, lstart) = self.prevleft(curr + 1);
        proof {
            lemma_right_scan(s, curr as int, 0);
            lemma_left_scan(s, curr + 1, 0, curr as int);
        }
        let mut string = String::new();
        push_decimal(&mut string, line as u64);
        let digits = decimal_len(line as u64);
        left = left + digits + 3;
        push_char(&mut string, ' ');
        push_char(&mut string, '|');
        push_char(&mut string, ' ');
        if left_continue {
            push_char(&mut string, '.');
            push_char(&mut string, '.');
            push_char(&mut string, '.');
            left = left + 3;
        }
        let piece = self.slice(lstart, end);
        proof {
            assert(decode_utf8(encode_utf8(piece@)) == piece@);
        }
        string.append(piece);
        if right_continue {
            push_char(&mut string, '.');
            push_char(&mut string, '.');
            push_char(&mut string, '.');
        }
        proof {
            let t = decimal(line as nat) + seq![' ', '|', ' '] + (if left_continue {
                dots()
            } else {
                Seq::<char>::empty()
            }) + decode_utf8(s.subrange(lstart as int, end as int)) + (if right_continue {
                dots()
            } else {
                Seq::<char>::empty()
            });
            assert(string@ =~= t);
        }
        Some((left, string))
    }
}

impl<'a> Lexer<'a> {
    /// The excerpt for an error at location `loc` on line `line`.
    pub fn gen_error(&self, loc: Location, line: u32) -> (r: Option<(u32, String)>)
        requires
            self.wf(),
        ensures
            match report_line(self.input(), line, loc@ as int) {
                None => r is None,
                Some((col, text)) => r matches Some((c, t)) && c == col && t@ == text,
            },
    {
        self.source().gen_error(line, loc)
    }

    /// The excerpt for an error at the start of `span`, on its line.
    pub fn gen_error_with_span(&self, span: Span) -> (r: Option<(u32, String)>)
        requires
            self.wf(),
        ensures
            match report_line(self.input(), span@.line, span@.start as int) {
                None => r is None,
                Some((col, text)) => r matches Some((c, t)) && c == col && t@ == text,
            },
    {
        self.source().gen_error(span.line(), span.get_start())
    }
}

} // verus!
