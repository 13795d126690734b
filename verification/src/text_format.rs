//! Escape sequences of `Text` strings.
use vstd::prelude::*;
use vstd::std_specs::iter::IteratorSpec;
use crate::text::push_char;

verus! {

/// The character that the escape `\c` stands for: `\t`, `\r`, `\0` and
/// `\n` are control characters; any other character stands for itself.
pub open spec fn escaped(c: char) -> char {
    if c == 't' {
        '\t'
    } else if c == 'r' {
        '\r'
    } else if c == '0' {
        '\0'
    } else if c == 'n' {
        '\n'
    } else {
        c
    }
}

/// The text with its escape sequences replaced, read from the front: a
/// backslash and the character after it become one character; a backslash
/// at the very end stays as it is.
pub open spec fn unescape(cs: Seq<char>) -> Seq<char>
    decreases cs.len(),
{
    if cs.len() == 0 {
        Seq::<char>::empty()
    } else if cs[0] == '\\' && cs.len() >= 2 {
        seq![escaped(cs[1])] + unescape(cs.skip(2))
    } else {
        seq![cs[0]] + unescape(cs.skip(1))
    }
}

/// The character that the escape `\c` stands for.
fn escape_of(c: char) -> (r: char)
    ensures
        r == escaped(c),
{
    if c == 't' {
        '\t'
    } else if c == 'r' {
        '\r'
    } else if c == '0' {
        '\0'
    } else if c == 'n' {
        '\n'
    } else {
        c
    }
}

/// Replaces the escape sequences of `string` (`\t`, `\r`, `\0`, `\n`, and
/// a backslash before any other character, which stands for that
/// character).
pub fn unescape_string(string: &str) -> (r: String)
    ensures
        r@ == unescape(string@),
{
    broadcast use vstd::string::axiom_spec_iter, vstd::string::next_postcondition;

    let ghost cs = string@;
    let mut iter = string.chars();
    let mut r = String::new();
    let ghost mut k: int = 0;
    loop
        invariant
            0 <= k <= cs.len(),
            iter.remaining() == cs.skip(k),
            r@ + unescape(cs.skip(k)) == unescape(cs),
        ensures
            r@ == unescape(cs),
        decreases cs.len() - k,
    {
        let ghost before = r@;
        match iter.next() {
            None => {
                assert(cs.skip(k).len() == 0);
                assert(r@ + unescape(cs.skip(k)) =~= r@);
                break;
            },
            Some(ch) => {
                if ch == '\\' {
                    match iter.next() {
                        Some(chn) => {
                            push_char(&mut r, escape_of(chn));
                            proof {
                                let rest = cs.skip(k);
                                assert(rest.skip(2) =~= cs.skip(k + 2));
                                assert(unescape(rest) == seq![escaped(rest[1])] + unescape(rest.skip(2)));
                                assert(r@ + unescape(cs.skip(k + 2)) =~= before + unescape(rest));
                                k = k + 2;
                            }
                        },
                        None => {
                            push_char(&mut r, '\\');
                            proof {
                                let rest = cs.skip(k);
                                assert(rest.len() == 1);
                                assert(rest.skip(1) =~= Seq::<char>::empty());
                                assert(unescape(rest) == seq![rest[0]] + unescape(rest.skip(1)));
                                assert(r@ =~= before + unescape(rest));
                                assert(cs.skip(k + 1).len() == 0);
                                assert(r@ + unescape(cs.skip(k + 1)) =~= r@);
                                k = k + 1;
                            }
                            break;
                        },
                    }
                } else {
                    push_char(&mut r, ch);
                    proof {
                        let rest = cs.skip(k);
                        assert(rest.skip(1) =~= cs.skip(k + 1));
                        assert(unescape(rest) == seq![rest[0]] + unescape(rest.skip(1)));
                        assert(r@ + unescape(cs.skip(k + 1)) =~= before + unescape(rest));
                        k = k + 1;
                    }
                }
            },
        }
    }
    r
}

} // verus!
