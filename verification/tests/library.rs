use std::borrow::Cow;
use std::collections::{BTreeMap, BTreeSet, HashMap, HashSet, VecDeque};

use nanotero::loom_lexer::{Lexer as LoomLexer, LexError as LoomLexError, Literal, LoomValue, Token as LoomToken};
use nanotero::loom_parser::{parser_string, LoomError, LoomFloatKind, Value as LoomValueTree};
use nanotero::{
    check_field, from_str, read_field, unescape_string, ArrayTracker, Deserialize, EvalError,
    FieldValue, FloatValue, LexError, Lexer, Magnitude, ScalarStep, ScopeTracker, Src, TeroError,
    Token, Value,
};

/// A record with fields of the std collections and wrappers.
#[derive(Debug)]
struct Holder {
    deque: VecDeque<i32>,
    set: HashSet<u8>,
    ordered: BTreeSet<i64>,
    name: Box<str>,
    label: Cow<'static, str>,
    fixed: [u8; 2],
}

impl Deserialize for Holder {
    fn deserialize_tero(input: FieldValue, lexer: &mut Lexer) -> Result<Self, EvalError> {
        let mut deque: Option<VecDeque<i32>> = None;
        let mut set: Option<HashSet<u8>> = None;
        let mut ordered: Option<BTreeSet<i64>> = None;
        let mut name: Option<Box<str>> = None;
        let mut label: Option<Cow<'static, str>> = None;
        let mut fixed: Option<[u8; 2]> = None;
        let mut scope = match input {
            FieldValue::Block(scope) => scope,
            other => return Err(EvalError::UnexpectedToken(other.as_token())),
        };
        while let Some(entry) = scope.next(lexer) {
            let field = entry?;
            let key = field.get_name(lexer).unwrap_or("");
            match key {
                "deque" => read_field(&mut deque, field, false, lexer)?,
                "set" => read_field(&mut set, field, false, lexer)?,
                "ordered" => read_field(&mut ordered, field, false, lexer)?,
                "name" => read_field(&mut name, field, false, lexer)?,
                "label" => read_field(&mut label, field, false, lexer)?,
                "fixed" => read_field(&mut fixed, field, false, lexer)?,
                _ => {}
            }
        }
        check_field(&deque, "deque", false)?;
        check_field(&set, "set", false)?;
        check_field(&ordered, "ordered", false)?;
        check_field(&name, "name", false)?;
        check_field(&label, "label", false)?;
        check_field(&fixed, "fixed", false)?;
        Ok(Holder {
            deque: deque.unwrap(),
            set: set.unwrap(),
            ordered: ordered.unwrap(),
            name: name.unwrap(),
            label: label.unwrap(),
            fixed: fixed.unwrap(),
        })
    }
}

#[test]
fn collections_and_wrappers() {
    let h = from_str::<Holder>(
        "deque: [3, 1, 2]\nset: [1, 1, 2]\nordered: [5, -1, 5]\nname: 'box'\nlabel: \"a\\tb\"\nfixed: [7, 8]",
    )
    .expect("every field is present");
    assert_eq!(h.deque, VecDeque::from(vec![3, 1, 2]));
    assert_eq!(h.set, HashSet::from([1u8, 2]));
    assert_eq!(h.ordered, BTreeSet::from([-1i64, 5]));
    assert_eq!(&*h.name, "box");
    assert_eq!(h.label, "a\tb");
    assert_eq!(h.fixed, [7, 8]);
}

#[test]
fn fixed_array_too_short_names_the_missing_index() {
    match from_str::<Holder>(
        "deque: [], set: [], ordered: [], name: 'n', label: 'l', fixed: [7]",
    ) {
        Err(TeroError::MissingField { found }) => {
            assert!(found.ends_with("Missing field: \"[1]\""), "{}", found);
        }
        r => panic!("unexpected value: {:?}", r),
    }
}

#[test]
fn value_reads_any_document() {
    let v = from_str::<Value>("config { active: true }").expect("a valid document");
    let mut inner = BTreeMap::new();
    inner.insert("active".to_string(), Value::Boolean(true));
    let mut outer = BTreeMap::new();
    outer.insert("config".to_string(), Value::Object(inner));
    assert_eq!(v, Value::Object(outer));
}

#[test]
fn value_repeated_key_is_refused() {
    match from_str::<Value>("a: 1\na: 2") {
        Err(TeroError::DuplicateKey { found }) => {
            assert!(found.ends_with("^ Duplicate key"), "{}", found);
        }
        r => panic!("unexpected value: {:?}", r),
    }
    let mut inner = BTreeMap::new();
    inner.insert("a".to_string(), Value::Int(2));
    let mut outer = BTreeMap::new();
    outer.insert("a".to_string(), Value::Int(1));
    outer.insert("o".to_string(), Value::Object(inner));
    assert_eq!(from_str::<Value>("a: 1\no { a: 2 }").unwrap(), Value::Object(outer));
}

#[test]
fn map_repeated_key_is_refused() {
    let mut lx = Lexer::new("a: 1, a: 2").unwrap();
    let fv = FieldValue::Block(ScopeTracker::new(&lx, false));
    match BTreeMap::<String, i64>::deserialize_tero(fv, &mut lx) {
        Err(EvalError::DuplicateKey(sp)) => {
            assert_eq!(sp.get_start().get_offset(), 6);
            assert_eq!(sp.as_str(&lx), Some("a"));
        }
        r => panic!("unexpected value: {:?}", r),
    }
    let mut lx = Lexer::new("b: 1\na: 2\nb: 3").unwrap();
    let fv = FieldValue::Block(ScopeTracker::new(&lx, false));
    match HashMap::<String, i64>::deserialize_tero(fv, &mut lx) {
        Err(EvalError::DuplicateKey(sp)) => {
            assert_eq!(sp.get_start().get_offset(), 10);
            assert_eq!(sp.as_str(&lx), Some("b"));
        }
        r => panic!("unexpected value: {:?}", r),
    }
    let mut lx = Lexer::new("a: 1, b: 2").unwrap();
    let fv = FieldValue::Block(ScopeTracker::new(&lx, false));
    let m = BTreeMap::<String, i64>::deserialize_tero(fv, &mut lx).unwrap();
    assert_eq!(m.get("a"), Some(&1));
    assert_eq!(m.get("b"), Some(&2));
}

#[test]
fn error_messages() {
    assert_eq!(TeroError::invalid_version().message(), "supports version 0");
    match from_str::<Value>("v: '") {
        Err(e) => assert_eq!(
            e.message(),
            "Unterminated String. \n1 | v: '\n        ^ the string end is missing"
        ),
        r => panic!("unexpected value: {:?}", r),
    }
}

#[test]
fn unescape_escapes() {
    assert_eq!(unescape_string("a\\tb\\nc\\0d\\re\\\\f\\'"), "a\tb\nc\0d\re\\f'");
    assert_eq!(unescape_string("end\\"), "end\\");
}

#[test]
fn unescape_plain_text_is_unchanged() {
    assert_eq!(unescape_string("plain text"), "plain text");
}

#[test]
fn unescape_never_lengthens() {
    let text = "\\n\\t\\\\x";
    assert!(unescape_string(text).chars().count() <= text.chars().count());
}

#[test]
fn lexer_error_is_sticky() {
    let mut lexer = Lexer::new("v: ñ").expect("version accepted");
    assert!(matches!(lexer.next(), Some(Ok(Token::Identifier(_)))));
    assert_eq!(lexer.next(), Some(Ok(Token::Colon)));
    let e = lexer.next();
    assert_eq!(e, Some(Err(LexError::InvalidCharacter('ñ'))));
    assert_eq!(lexer.next(), e);
    assert_eq!(lexer.next(), e);
}

#[test]
fn lexer_next_hands_out_peek() {
    let mut lexer = Lexer::new("a: [1, 2]").expect("version accepted");
    while lexer.peek().is_some() {
        let p = lexer.peek();
        assert_eq!(lexer.next(), p);
    }
    assert_eq!(lexer.next(), None);
}

#[test]
fn lexer_tokens_lie_in_document() {
    let mut lexer = Lexer::new("name: 'text'").expect("version accepted");
    match lexer.next() {
        Some(Ok(Token::Identifier(span))) => assert_eq!(span.as_str(&lexer), Some("name")),
        r => panic!("unexpected token: {:?}", r),
    }
    lexer.next();
    match lexer.next() {
        Some(Ok(Token::RawText(span))) => assert_eq!(span.as_str(&lexer), Some("text")),
        r => panic!("unexpected token: {:?}", r),
    }
}

#[test]
fn lexer_version_refusal() {
    assert_eq!(Lexer::new("  Tero 1").err(), Some(LexError::InvalidVersion));
    assert!(Lexer::new("Tero 0\na: 1").is_ok());
    assert!(Lexer::new("Tero").is_ok());
}

#[test]
fn object_end_is_final() {
    let mut lexer = Lexer::new("a: 1").expect("version accepted");
    let mut scope = ScopeTracker::new(&lexer, false);
    assert!(matches!(scope.next(&mut lexer), Some(Ok(_))));
    assert!(scope.next(&mut lexer).is_none());
    assert!(scope.next(&mut lexer).is_none());
}

#[test]
fn array_end_is_final() {
    let mut lexer = Lexer::new("[1]").expect("version accepted");
    assert_eq!(lexer.next(), Some(Ok(Token::LeftBracket)));
    let mut array = ArrayTracker::new(&lexer);
    assert_eq!(array.next(&mut lexer).map(|r| r.map(|v| v.as_token())), Some(Ok(Token::Int(1))));
    assert!(array.next(&mut lexer).is_none());
    assert!(array.next(&mut lexer).is_none());
}

#[derive(Debug)]
struct Small {
    v: i8,
}
impl Deserialize for Small {
    fn deserialize_tero(input: FieldValue, lexer: &mut Lexer) -> Result<Self, EvalError> {
        let mut v: Option<i8> = None;
        let mut scope = match input {
            FieldValue::Block(scope) => scope,
            other => return Err(EvalError::UnexpectedToken(other.as_token())),
        };
        while let Some(entry) = scope.next(lexer) {
            let field = entry?;
            read_field(&mut v, field, false, lexer)?;
        }
        check_field(&v, "v", false)?;
        Ok(Small { v: v.unwrap() })
    }
}

#[test]
fn integer_range() {
    assert_eq!(from_str::<Small>("v: -128").unwrap().v, -128);
    assert_eq!(from_str::<Small>("v: 127").unwrap().v, 127);
    assert!(matches!(from_str::<Small>("v: 128"), Err(TeroError::NumericOverflow { .. })));
    assert!(matches!(from_str::<Small>("v: -129"), Err(TeroError::NumericOverflow { .. })));
}

#[test]
fn loom_error_is_sticky() {
    let mut lexer = LoomLexer::new("a: \"open").expect("no version line");
    lexer.next();
    lexer.next();
    let e = lexer.next();
    assert_eq!(e, Some(Err(LoomLexError::UnterminatedString)));
    assert_eq!(lexer.peek(), e);
    assert_eq!(lexer.next(), e);
}

#[test]
fn loom_next_hands_out_peek() {
    let mut lexer = LoomLexer::new("a: [1, 2]\nb: 3").expect("no version line");
    while lexer.peek().is_some() {
        let p = lexer.peek();
        assert_eq!(lexer.next(), p);
    }
}

#[test]
fn loom_skip_lines_never_hands_out_a_line_break() {
    let mut lexer = LoomLexer::new("\n\na\n\n").expect("no version line");
    assert_eq!(lexer.next_skip_ln(), Some(Ok(LoomToken::Identifier("a"))));
    assert_eq!(lexer.next_skip_ln(), None);
}

#[test]
fn loom_version_refusal() {
    assert_eq!(LoomLexer::new(" \tTERO 2").err(), Some(LoomLexError::InvalidVersion));
    assert!(LoomLexer::new("TERO 0").is_ok());
    let mut lexer = LoomLexer::new("TERO x").expect("no version given");
    assert_eq!(lexer.next(), Some(Ok(LoomToken::Identifier("TERO"))));
}

#[test]
fn loom_version_line_is_counted() {
    let mut lexer = LoomLexer::new("TERO 0\nA").expect("version 0");
    assert_eq!(lexer.next(), Some(Ok(LoomToken::Identifier("A"))));
    assert_eq!(lexer.line(), 2);
}

#[test]
fn loom_token_text() {
    assert_eq!(LoomToken::Newline.to_text(), Some("\\n".to_string()));
    assert_eq!(LoomToken::LeftBrace.to_text(), Some("{".to_string()));
    assert_eq!(
        LoomToken::Value(LoomValue::Raw(Literal::Infinity)).to_text(),
        Some("inf".to_string())
    );
    assert_eq!(
        LoomToken::Value(LoomValue::Raw(Literal::Integer(-42))).to_text(),
        Some("-42".to_string())
    );
    assert_eq!(
        LoomToken::Value(LoomValue::Raw(Literal::RawText("hi'"))).to_text(),
        Some("hi'".to_string())
    );
}

#[test]
fn loom_number_errors() {
    let mut lexer = LoomLexer::new("12ab").expect("no version line");
    assert_eq!(lexer.next(), Some(Err(LoomLexError::InvalidCharacter('a'))));
    let mut lexer = LoomLexer::new("1.5x").expect("no version line");
    assert_eq!(lexer.next(), Some(Err(LoomLexError::InvalidCharacter('x'))));
}

#[test]
fn loom_readme_example() {
    let code = r#"
        servidor: "KiwiServer",
        puerto: 8080,
        activo: true,
        modos [ "produccion", "debug" ] # Comentario integrado
    "#;
    match parser_string(code) {
        Ok(LoomValueTree::Object(mapa)) => {
            assert_eq!(
                mapa.get("servidor"),
                Some(&LoomValueTree::String("KiwiServer".to_string()))
            );
            assert_eq!(mapa.get("puerto"), Some(&LoomValueTree::Integer(8080)));
            assert_eq!(mapa.get("activo"), Some(&LoomValueTree::Boolean(true)));
            assert_eq!(
                mapa.get("modos"),
                Some(&LoomValueTree::Array(vec![
                    LoomValueTree::String("produccion".to_string()),
                    LoomValueTree::String("debug".to_string()),
                ]))
            );
        }
        r => panic!("unexpected result: {:?}", r),
    }
}

#[test]
fn loom_parser_errors() {
    assert_eq!(
        parser_string("}"),
        Err(LoomError::UnexpectedToken("}".to_string()))
    );
    assert_eq!(
        parser_string("a -1"),
        Err(LoomError::UnexpectedToken("-".to_string()))
    );
    assert_eq!(
        parser_string("a: -true"),
        Err(LoomError::UnexpectedToken("true".to_string()))
    );
    assert_eq!(parser_string("a: -"), Err(LoomError::UnexpectedEOF));
    assert_eq!(
        parser_string("2.50"),
        Err(LoomError::UnexpectedFloat { integer: 2, fraction: b"50".to_vec() })
    );
    assert_eq!(
        parser_string("a: 'x"),
        Err(LoomError::Lexical(LoomLexError::UnterminatedString))
    );
    assert_eq!(
        parser_string("TERO 3"),
        Err(LoomError::Lexical(LoomLexError::InvalidVersion))
    );
    assert_eq!(
        parser_string("a [1 2]"),
        Err(LoomError::UnexpectedToken("2".to_string()))
    );
    assert_eq!(
        parser_string("a: 1, b { a: 2 }, a: 3"),
        Err(LoomError::DuplicateKey("a".to_string()))
    );
}

#[test]
fn loom_parser_values() {
    match parser_string("n: -5, f: -Infinity, g: NaN, s: 'a\\tb', t: \"x\\ny\", a: 2") {
        Ok(LoomValueTree::Object(m)) => {
            assert_eq!(m.get("n"), Some(&LoomValueTree::Integer(-5)));
            match m.get("f") {
                Some(LoomValueTree::Float(f)) => {
                    assert!(f.negative);
                    assert_eq!(f.kind, LoomFloatKind::Infinity);
                }
                r => panic!("unexpected value: {:?}", r),
            }
            match m.get("g") {
                Some(LoomValueTree::Float(f)) => {
                    assert!(!f.negative);
                    assert_eq!(f.kind, LoomFloatKind::NaN);
                }
                r => panic!("unexpected value: {:?}", r),
            }
            assert_eq!(m.get("s"), Some(&LoomValueTree::String("a\tb".to_string())));
            assert_eq!(m.get("t"), Some(&LoomValueTree::String("x\ny".to_string())));
            assert_eq!(m.get("a"), Some(&LoomValueTree::Integer(2)));
        }
        r => panic!("unexpected result: {:?}", r),
    }
}

#[test]
fn comment_is_ignored() {
    assert_eq!(
        from_str::<Value>("a: 1 # note: [ 'x\nb: 2").unwrap(),
        from_str::<Value>("a: 1 \nb: 2").unwrap()
    );
    assert_eq!(
        parser_string("a: 1 # note: [ 'x\nb: 2"),
        parser_string("a: 1 \nb: 2")
    );
}

#[test]
fn float_values_are_read_as_written() {
    let m = from_str::<BTreeMap<String, FloatValue>>("a: 1.25, b: 3, c: -Infinity, d: -0.5")
        .expect("every value is a number");
    assert_eq!(
        m.get("a"),
        Some(&FloatValue {
            negative: false,
            magnitude: Magnitude::Decimal { integer: 1, fraction: "25".to_string() }
        })
    );
    assert_eq!(
        m.get("b"),
        Some(&FloatValue {
            negative: false,
            magnitude: Magnitude::Decimal { integer: 3, fraction: String::new() }
        })
    );
    assert_eq!(
        m.get("c"),
        Some(&FloatValue { negative: true, magnitude: Magnitude::Infinity })
    );
    assert_eq!(
        m.get("d"),
        Some(&FloatValue {
            negative: true,
            magnitude: Magnitude::Decimal { integer: 0, fraction: "5".to_string() }
        })
    );
    assert!(matches!(
        from_str::<BTreeMap<String, FloatValue>>("a: 'x'"),
        Err(TeroError::UnexpectedToken { .. })
    ));
}

#[test]
fn src_scalar_iteration() {
    let mut strn = String::new();
    for _ in 0..16 {
        strn.push_str("a");
    }
    for _ in 0..16 {
        strn.push_str("b");
    }
    let mut src = Src::new(&strn, false);
    assert_eq!(src.len(), 32, "There should be 32 characters");
    assert!(src.is_not_empty(), "You shouldn't mark it as empty");
    let nscalar = std::cell::Cell::new(0);
    let was_interrupted = src.scalar_with(|b| {
        assert_eq!(b, if nscalar.get() < 16 { b'a' } else { b'b' });
        nscalar.set(nscalar.get() + 1);
        ScalarStep::Continue
    });
    assert!(!was_interrupted, "I'm incorrectly marking it as the end");
    assert_eq!(nscalar.get(), 32, "It must have moved exactly 32 bytes");
    assert!(src.is_empty());
}
