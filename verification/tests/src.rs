use nanotero::{LexError, Location, ScalarStep, Span, Src};

#[test]
fn test_src_break_variants_and_location() {
    let mut src = Src::new("ab", false);
    assert_eq!(src.get_byte_unchecked(), b'a', "The first character should be 'a'");
    src.scalar_with(|b| if b == b'b' { ScalarStep::Break } else { ScalarStep::Continue });
    assert_eq!(src.len(), 1, "It probably didn't process the last character");
    assert_eq!(src.get_byte_unchecked(), b'b', "The last character must be 'b'");

    src.retreat(1);
    assert_eq!(src.get_byte_unchecked(), b'a', "I had to go back to the letter 'a'");
    assert_eq!(src.len(), 2, "There must be 2 unused bytes again");

    src.scalar_with(|b| if b == b'a' { ScalarStep::BreakAndConsume } else { ScalarStep::Continue });
    assert_eq!(src.len(), 1, "I should have used 'a'");
    assert_eq!(src.read::<u8>(), b'b', "It must have been 'b'");
    assert_eq!(src.get_byte_unchecked(), b'b', "It must have been 'b'");

    let location = Location::new(&src);
    assert_eq!(location.get_offset(), 1, "The location offset must be exactly 1");

    src.advance(1);
    let span = Span::new(5, location, &src);
    assert_eq!(span.len(), 1, "The span must be one byte long");
    assert_eq!(span.line(), 5, "Line 5 must be positioned correctly");
    assert_eq!(span.get_start().get_offset(), 1, "You must correctly omit the first character ");
    assert_eq!(span.as_str_with_src_unchecked(&src), "b", "He must have just captured 'b'");
}

#[test]
fn test_trim() {
    let mut strn = String::new();
    for _ in 0..16 {
        strn.push_str(" ");
    }
    strn.push_str(" abc");
    let mut src = Src::new(&strn, false);
    src.trim();
    assert_eq!(src.len(), 3, "There should be 3 characters left after trimming");
    assert_eq!(src.get_byte_unchecked(), b'a', "The first character after trimming should be 'a'");

    src = Src::new("  SIMD ACTIVATION", false);
    src.trim();
    assert_eq!(src.len(), 15, "There should be 15 characters left after trimming");
    assert_eq!(src.get_byte_unchecked(), b'S', "The first character after trimming should be 'S'");
}

#[test]
fn test_skip_current_line() {
    let mut strn = String::new();
    strn.push_str("SIMD ACTIVATION 1\n2\n3 OFFSET SIMD");
    let mut src = Src::new(&strn, false);
    assert_eq!(src.len(), 33, "There should be 33 characters total");
    assert!(src.is_not_empty(), "The source should not be empty before skipping");
    src.skip_current_line();
    assert_eq!(src.len(), 16, "There should be 16 characters left after skipping the first line");
    assert_eq!(src.get_byte_unchecked(), b'\n', "The first character after skipping should be '\n'");

    let mut src = Src::new("1\n2", false);
    assert_eq!(src.len(), 3, "There should be 3 characters total");
    src.skip_current_line();
    assert_eq!(src.len(), 2, "There should be 2 characters left after skipping the first line");
    assert_eq!(src.get_byte_unchecked(), b'\n', "The first character after skipping should be '\n'");
}

#[test]
fn test_src_scalar_with_error() {
    let mut src = Src::new("abc", false);
    let result = src.scalar_with_error(|b| {
        if b == b'b' {
            Err(LexError::InvalidCharacter('b'))
        } else {
            Ok(ScalarStep::Continue)
        }
    });
    assert!(result.is_err(), "scalar_with_error should have returned an error");
    assert_eq!(
        result.err().unwrap(),
        LexError::InvalidCharacter('b'),
        "The error message should match the one from the callback"
    );
    assert_eq!(src.get_byte_unchecked(), b'b', "The cursor should still be at 'b' after the error");
}

#[test]
fn test_src_gen_error() {
    let mut src = Src::new(
        "Random message for line one\n  random message for line two\nRandom message for line 3",
        false,
    );
    src.advance(39); // We took up position halfway along the second line

    let (left, strn) = src.gen_error(2, Location::new(&src)).unwrap();
    assert_eq!(left, 16);
    assert_eq!(strn, "2 |   random message for line two");

    src = Src::new(
        "A super-hyper-mega-long message to activate SIMD and enable right_continue \n  random message for line two\nRandom message for line 3",
        false,
    );
    src.advance(14); // We took up position halfway along the first line

    let (left, strn) = src.gen_error(1, Location::new(&src)).unwrap();
    assert_eq!(left, 20);
    assert_eq!(
        strn,
        "1 | A super-hyper-mega-long message to activate SI..."
    );

    src.advance(20);
    let (left, strn) = src.gen_error(1, Location::new(&src)).unwrap();
    assert_eq!(left, 39);
    assert_eq!(
        strn,
        "1 | ...uper-hyper-mega-long message to activate SIMD and enable right_..."
    );

    src = Src::new(
        "A suñper-hyper-mega-long message to activate SIMD and enable right_continue",
        false,
    );

    src.advance(34); // We took up position halfway along the first line
    let (left, strn) = src.gen_error(1, Location::new(&src)).unwrap();
    assert_eq!(left, 39);
    assert_eq!(
        strn,
        "1 | ...suñper-hyper-mega-long message to activate SIMD and enable righ..."
    );
}

#[test]
fn gen_error_past_the_end_is_none() {
    let src = Src::new("ab", false);
    let mut far = Location::zero();
    far.advance(3);
    assert!(src.gen_error(1, far).is_none());
}

#[test]
fn gen_error_at_end_points_at_last_byte() {
    let mut src = Src::new("v: ", false);
    src.advance(3);
    let (left, strn) = src.gen_error(1, Location::new(&src)).unwrap();
    assert_eq!(strn, "1 | v: ");
    assert_eq!(left, 8);
}
