//! Facts about UTF-8 byte sequences that the lexer relies on: in a valid
//! encoding, an ASCII byte is a whole character, so the positions just before
//! and just after it are character boundaries.
use vstd::prelude::*;
use vstd::utf8::*;

verus! {

/// True when `b` is a one-byte (ASCII) UTF-8 character.
pub open spec fn is_ascii_byte(b: u8) -> bool {
    b < 0x80
}

/// In valid UTF-8, an ASCII byte at `i` starts a character and the next
/// position is again a character boundary.
pub proof fn lemma_ascii_byte_boundaries(bytes: Seq<u8>, i: int)
    requires
        valid_utf8(bytes),
        0 <= i < bytes.len(),
        is_ascii_byte(bytes[i]),
    ensures
        is_char_boundary(bytes, i),
        is_char_boundary(bytes, i + 1),
    decreases bytes.len(),
{
    is_char_boundary_iff_not_is_continuation_byte(bytes, i);
    let l = length_of_first_scalar(bytes);
    let tail = pop_first_scalar(bytes);
    assert(tail.len() == bytes.len() - l);
    if i < l {
        // The bytes after the first of a multi-byte character are
        // continuation bytes, so an ASCII byte here must be the first one.
        assert(i == 0);
        assert(l == 1);
        reveal_with_fuel(is_char_boundary, 2);
        if tail.len() > 0 {
            assert(is_char_boundary(tail, 0));
        } else {
            assert(is_char_boundary(tail, 0));
        }
    } else {
        assert(valid_utf8(tail));
        assert(tail[i - l] == bytes[i]);
        lemma_ascii_byte_boundaries(tail, i - l);
        assert(is_char_boundary(bytes, i + 1) == is_char_boundary(tail, i + 1 - l));
    }
}

/// The end of a valid UTF-8 sequence is a character boundary.
pub proof fn lemma_end_boundary(bytes: Seq<u8>)
    requires
        valid_utf8(bytes),
    ensures
        is_char_boundary(bytes, 0),
        is_char_boundary(bytes, bytes.len() as int),
{
    is_char_boundary_start_end_of_seq(bytes);
}

} // verus!
