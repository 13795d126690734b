use std::collections::{BTreeMap, HashMap};

use nanotero::{
    check_field, from_str, read_field, Deserialize, EvalError, FieldValue, FloatKind, Lexer,
    TeroError, Token,
};

/// A float field, read from an integer or a decimal literal.
#[derive(PartialEq, Debug)]
struct Float(f64);

impl Deserialize for Float {
    fn deserialize_tero(value: FieldValue, lexer: &mut Lexer) -> Result<Self, EvalError> {
        match value {
            FieldValue::Literal(Token::Int(i)) => Ok(Float(i as f64)),
            FieldValue::Literal(Token::Float(lit)) => {
                let magnitude = match lit.kind {
                    FloatKind::NaN => f64::NAN,
                    FloatKind::Infinity => f64::INFINITY,
                    FloatKind::Decimal { integer, fraction } => {
                        let digits: String = fraction
                            .as_str(lexer)
                            .unwrap_or("")
                            .chars()
                            .filter(|c| c.is_ascii_digit())
                            .collect();
                        format!("{}.{}0", integer, digits).parse::<f64>().unwrap()
                    }
                };
                Ok(Float(if lit.negative { -magnitude } else { magnitude }))
            }
            other => Err(EvalError::UnexpectedToken(other.as_token())),
        }
    }
}

#[derive(PartialEq, Debug)]
struct Example {
    u1: u8,
    u2: u16,
    u3: u32,
    u4: u64,
    u5: u128,
    u6: usize,
    i1: i8,
    i2: i16,
    i3: i32,
    i4: i64,
    i5: i128,
    i6: isize,
    f1: f32,
    f2: f64,

    s1: String,
    s2: String,
    op: Option<String>,
    op2: Option<String>,

    b: bool,
}

impl Example {
    fn new() -> Self {
        Self {
            u1: 255,
            u2: 35000,
            u3: u32::MAX,
            u4: u32::MAX as u64,
            u5: 0,
            u6: 0,
            i1: -1,
            i2: -126,
            i3: 0,
            i4: -45000,
            i5: 100,
            i6: 12,
            f1: 0.0,
            f2: 0.0,
            s1: String::from("Hello World"),
            s2: String::from("\tHello\nWorld"),
            op: None,
            op2: None,
            b: false,
        }
    }
    fn code() -> String {
        let n = Self::new();
        format!(
            "i1: {}\ni2: {},i3: {},i4: {}\ni5: {},i6: {},u1: {}\nu2: {},u3: {},u4: {}\nu5: {},u6: {}, \
            f1: {},f2: {}\ns1: {:?},\ns2: {:?},\n\nop: nil\nb: {}\n\n",
            n.i1, n.i2, n.i3, n.i4, n.i5, n.i6,
            n.u1, n.u2, n.u3, n.u4, n.u5, n.u6,
            n.f1, n.f2, n.s1, n.s2, n.b
        )
    }
}

impl Deserialize for Example {
    fn deserialize_tero(input: FieldValue, lexer: &mut Lexer) -> Result<Self, EvalError> {
        let mut u1: Option<u8> = None;
        let mut u2: Option<u16> = None;
        let mut u3: Option<u32> = None;
        let mut u4: Option<u64> = None;
        let mut u5: Option<u128> = None;
        let mut u6: Option<usize> = None;
        let mut i1: Option<i8> = None;
        let mut i2: Option<i16> = None;
        let mut i3: Option<i32> = None;
        let mut i4: Option<i64> = None;
        let mut i5: Option<i128> = None;
        let mut i6: Option<isize> = None;
        let mut f1: Option<Float> = None;
        let mut f2: Option<Float> = None;
        let mut s1: Option<String> = None;
        let mut s2: Option<String> = None;
        let mut op: Option<String> = None;
        let mut op2: Option<String> = None;
        let mut b: Option<bool> = None;
        let mut scope = match input {
            FieldValue::Block(scope) => scope,
            other => return Err(EvalError::UnexpectedToken(other.as_token())),
        };
        while let Some(entry) = scope.next(lexer) {
            let field = entry?;
            let name = field.get_name(lexer).unwrap_or("");
            match name {
                "u1" => read_field(&mut u1, field, false, lexer)?,
                "u2" => read_field(&mut u2, field, false, lexer)?,
                "u3" => read_field(&mut u3, field, false, lexer)?,
                "u4" => read_field(&mut u4, field, false, lexer)?,
                "u5" => read_field(&mut u5, field, false, lexer)?,
                "u6" => read_field(&mut u6, field, false, lexer)?,
                "i1" => read_field(&mut i1, field, false, lexer)?,
                "i2" => read_field(&mut i2, field, false, lexer)?,
                "i3" => read_field(&mut i3, field, false, lexer)?,
                "i4" => read_field(&mut i4, field, false, lexer)?,
                "i5" => read_field(&mut i5, field, false, lexer)?,
                "i6" => read_field(&mut i6, field, false, lexer)?,
                "f1" => read_field(&mut f1, field, false, lexer)?,
                "f2" => read_field(&mut f2, field, false, lexer)?,
                "s1" => read_field(&mut s1, field, false, lexer)?,
                "s2" => read_field(&mut s2, field, false, lexer)?,
                "op" => read_field(&mut op, field, true, lexer)?,
                "op2" => read_field(&mut op2, field, true, lexer)?,
                "b" => read_field(&mut b, field, false, lexer)?,
                _ => {}
            }
        }
        check_field(&u1, "u1", false)?;
        check_field(&u2, "u2", false)?;
        check_field(&u3, "u3", false)?;
        check_field(&u4, "u4", false)?;
        check_field(&u5, "u5", false)?;
        check_field(&u6, "u6", false)?;
        check_field(&i1, "i1", false)?;
        check_field(&i2, "i2", false)?;
        check_field(&i3, "i3", false)?;
        check_field(&i4, "i4", false)?;
        check_field(&i5, "i5", false)?;
        check_field(&i6, "i6", false)?;
        check_field(&f1, "f1", false)?;
        check_field(&f2, "f2", false)?;
        check_field(&s1, "s1", false)?;
        check_field(&s2, "s2", false)?;
        check_field(&op, "op", true)?;
        check_field(&op2, "op2", true)?;
        check_field(&b, "b", false)?;
        Ok(Example {
            u1: u1.unwrap(),
            u2: u2.unwrap(),
            u3: u3.unwrap(),
            u4: u4.unwrap(),
            u5: u5.unwrap(),
            u6: u6.unwrap(),
            i1: i1.unwrap(),
            i2: i2.unwrap(),
            i3: i3.unwrap(),
            i4: i4.unwrap(),
            i5: i5.unwrap(),
            i6: i6.unwrap(),
            f1: f1.unwrap().0 as f32,
            f2: f2.unwrap().0,
            s1: s1.unwrap(),
            s2: s2.unwrap(),
            op,
            op2,
            b: b.unwrap(),
        })
    }
}

#[derive(Debug)]
pub struct OverFlow {
    _v: u8,
    _i: i8,
}

impl Deserialize for OverFlow {
    fn deserialize_tero(input: FieldValue, lexer: &mut Lexer) -> Result<Self, EvalError> {
        let mut v: Option<u8> = None;
        let mut i: Option<i8> = None;
        let mut scope = match input {
            FieldValue::Block(scope) => scope,
            other => return Err(EvalError::UnexpectedToken(other.as_token())),
        };
        while let Some(entry) = scope.next(lexer) {
            let field = entry?;
            let name = field.get_name(lexer).unwrap_or("");
            match name {
                "v" => read_field(&mut v, field, false, lexer)?,
                "i" => read_field(&mut i, field, false, lexer)?,
                _ => {}
            }
        }
        check_field(&v, "v", false)?;
        check_field(&i, "i", false)?;
        Ok(OverFlow { _v: v.unwrap(), _i: i.unwrap() })
    }
}

#[derive(Debug)]
struct TestVecAndFix {
    v: Vec<[u8; 3]>,
}

impl Deserialize for TestVecAndFix {
    fn deserialize_tero(input: FieldValue, lexer: &mut Lexer) -> Result<Self, EvalError> {
        let mut v: Option<Vec<[u8; 3]>> = None;
        let mut scope = match input {
            FieldValue::Block(scope) => scope,
            other => return Err(EvalError::UnexpectedToken(other.as_token())),
        };
        while let Some(entry) = scope.next(lexer) {
            let field = entry?;
            let name = field.get_name(lexer).unwrap_or("");
            if name == "v" {
                read_field(&mut v, field, false, lexer)?;
            }
        }
        check_field(&v, "v", false)?;
        Ok(TestVecAndFix { v: v.unwrap() })
    }
}

#[test]
fn primitive_type() -> Result<(), TeroError> {
    let exp = Example::new();
    let code = Example::code();
    let result = from_str(&code)?;
    assert_eq!(exp, result);
    Ok(())
}

#[test]
fn btree_map() -> Result<(), TeroError> {
    let mut exp = BTreeMap::new();
    exp.insert(String::from("hey"), Some(12));
    exp.insert(String::from("hey2"), Some(25));
    exp.insert(String::from("hey3"), Some(-5));
    exp.insert(String::from("hey4"), None);
    let result = from_str("hey: 12, hey2: 25\n hey3: -5, hey4: nil")?;
    assert_eq!(exp, result);
    Ok(())
}

#[test]
fn hash_map() -> Result<(), TeroError> {
    let mut exp = HashMap::new();
    exp.insert(String::from("hey"), Some(12));
    exp.insert(String::from("hey2"), Some(25));
    exp.insert(String::from("hey3"), Some(-5));
    exp.insert(String::from("hey4"), None);
    let result = from_str("hey: 12, hey2: 25\n hey3: -5, hey4: nil")?;
    assert_eq!(exp, result);
    Ok(())
}

#[test]
fn overflow() {
    match from_str::<OverFlow>("v: 256, i: 0") {
        Err(TeroError::NumericOverflow { found: _ }) => {}
        tk => panic!("Unexpected: {:?}", tk),
    }
    match from_str::<OverFlow>("v: -1, i: 0") {
        Err(TeroError::NumericOverflow { found: _ }) => {}
        tk => panic!("Unexpected: {:?}", tk),
    }
    match from_str::<OverFlow>("v: 0, i: 128") {
        Err(TeroError::NumericOverflow { found: _ }) => {}
        tk => panic!("Unexpected: {:?}", tk),
    }
    match from_str::<OverFlow>("v: 0, i: -129") {
        Err(TeroError::NumericOverflow { found: _ }) => {}
        tk => panic!("Unexpected: {:?}", tk),
    }
}

#[test]
fn test_vec() -> Result<(), TeroError> {
    let result = from_str::<TestVecAndFix>("v: [[1, 2, 3], [4, 5, 6]]")?;
    assert_eq!(result.v, vec![[1, 2, 3], [4, 5, 6]]);
    Ok(())
}

#[test]
fn found_error() {
    match from_str::<OverFlow>("v: -1, i: -1") {
        Err(TeroError::NumericOverflow { found: result }) => {
            assert_eq!(&result, "1 | v: -1, i: -1\n        ^ Numeric overflow");
        }
        r => panic!("unexpected value: {:?}", r),
    }
    match from_str::<OverFlow>("v: 1, v: 1") {
        Err(TeroError::DuplicateKey { found: result }) => {
            assert_eq!(&result, "1 | v: 1, v: 1\n            ^ Duplicate key");
        }
        r => panic!("unexpected value: {:?}", r),
    }
    match from_str::<OverFlow>("v: '") {
        Err(TeroError::UnterminatedString { found: result }) => {
            assert_eq!(&result, "1 | v: '\n        ^ the string end is missing");
        }
        r => panic!("unexpected value: {:?}", r),
    }
    match from_str::<OverFlow>("v: ") {
        Err(TeroError::UnexpectedEOF { found: result }) => {
            assert_eq!(&result, "1 | v: \n        ^ The file ended abruptly.");
        }
        r => panic!("unexpected value: {:?}", r),
    }
    match from_str::<OverFlow>("v: ñ") {
        Err(TeroError::InvalidCharacter { found: result }) => {
            assert_eq!(&result, "1 | v: ñ\n        ^ Invalid character: 'ñ'");
        }
        r => panic!("unexpected value: {:?}", r),
    }
    match from_str::<OverFlow>("v: 'hello'") {
        Err(TeroError::UnexpectedToken { found: result }) => {
            assert_eq!(
                &result,
                "1 | v: 'hello'\n        ^ Unexpected token: RawText(Span { start: Location(4), end: 9, line: 1 })"
            );
        }
        r => panic!("unexpected value: {:?}", r),
    }
    match from_str::<OverFlow>("v: 12") {
        Err(TeroError::MissingField { found: result }) => {
            assert_eq!(&result, "1 | v: 12\n          ^ Missing field: \"i\"");
        }
        r => panic!("unexpected value: {:?}", r),
    }
    match from_str::<OverFlow>("Tero 1") {
        Err(TeroError::InvalidVersion) => {}
        r => panic!("unexpected value: {:?}", r),
    }
}
