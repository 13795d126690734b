use nanotero::loom_lexer::{FloatDigits, LexError, Lexer, Literal, LoomValue, Token};
use nanotero::loom_parser::{
    parser_string, unescape_string, LoomError, LoomFloat, LoomFloatKind, Value,
};
use std::collections::BTreeMap;

/// The float a literal denotes, accumulated digit by digit as the Loom
/// reader computes it.
fn digits_value(integer: i64, fraction: &[u8]) -> f64 {
    let mut float = integer as f64;
    let mut div = 0.1;
    for ch in fraction.iter() {
        if *ch == b'_' {
            continue;
        }
        float += ((*ch - b'0') as f64) * div;
        div *= 0.1;
    }
    float
}

fn float_of(f: &LoomFloat) -> f64 {
    let v = match &f.kind {
        LoomFloatKind::Digits { integer, fraction } => digits_value(*integer, fraction),
        LoomFloatKind::NaN => f64::NAN,
        LoomFloatKind::Infinity => f64::INFINITY,
    };
    if f.negative {
        -v
    } else {
        v
    }
}

/// A value with its floats as `f64`, to compare against expected values.
#[derive(Debug, PartialEq)]
enum Expected {
    Nil,
    Boolean(bool),
    Float(f64),
    Integer(i64),
    String(String),
    Array(Vec<Expected>),
    Object(BTreeMap<String, Expected>),
}

fn expected_of(v: &Value) -> Expected {
    match v {
        Value::Nil => Expected::Nil,
        Value::Boolean(b) => Expected::Boolean(*b),
        Value::Float(f) => Expected::Float(float_of(f)),
        Value::Integer(i) => Expected::Integer(*i),
        Value::String(s) => Expected::String(s.clone()),
        Value::Array(items) => Expected::Array(items.iter().map(expected_of).collect()),
        Value::Object(m) => Expected::Object(
            m.iter()
                .map(|(k, v)| (k.clone(), expected_of(v)))
                .collect(),
        ),
    }
}

#[test]
fn version_validation() {
    const CODE: &str = "     TERO 0sja\n";
    assert!(CODE.len() < 16, "No estas forzando el uso de bucles");
    let mut lexer = Lexer::new(CODE).expect("Debe soportar esa version");

    assert!(lexer.next().is_none(), "No deberia generar un nuevo token");

    if let Err(n) = Lexer::new("       TERO 1") {
        assert!(
            n == LexError::InvalidVersion,
            "No esta invalidando correctamente la version"
        );
    } else {
        assert!(false, "No esta validando correctamente la version");
    }
}

#[test]
fn next() {
    const CODE: &str = "      TERO 0asdasd \n\
        NOMBRE: 12 - 13.5 - 'hola' false true NaN nil Infinity";
    let expected: [Token<'static>; 12] = [
        Token::Identifier("NOMBRE"),
        Token::Colon,
        Token::Value(LoomValue::Raw(Literal::Integer(12))),
        Token::Sub,
        Token::Value(LoomValue::Raw(Literal::Float(FloatDigits {
            integer: 13,
            fraction: b"5",
        }))),
        Token::Sub,
        Token::Value(LoomValue::Raw(Literal::RawText("hola'"))),
        Token::Value(LoomValue::Raw(Literal::Boolean(false))),
        Token::Value(LoomValue::Raw(Literal::Boolean(true))),
        Token::Value(LoomValue::Raw(Literal::NaN)),
        Token::Value(LoomValue::Raw(Literal::Nil)),
        Token::Value(LoomValue::Raw(Literal::Infinity)),
    ];
    let mut lexer = Lexer::new(CODE).expect("Debe soportar esa version");
    for cmptoken in expected.iter() {
        let result = lexer.next().expect("Deberia haber token");
        match result {
            Ok(token) => {
                assert_eq!(token, *cmptoken, "Se esperaba otro token");
                if let Token::Value(LoomValue::Raw(Literal::Float(f))) = token {
                    assert_eq!(digits_value(f.integer, f.fraction), 13.5);
                }
            }
            Err(n) => assert!(false, "Error: {:?}", n),
        }
    }
    assert!(lexer.next().is_none(), "Hay otro token al final");
}

fn string_validation(cadena: &str) {
    let mut lexer = Lexer::new(cadena).expect("Fallo al crear el lexer");
    let token = lexer
        .next()
        .expect("debio de crear un token")
        .expect("No debio de encontrar un fallo");
    if let Token::Value(LoomValue::Raw(v)) = token {
        match v {
            Literal::RawText(c) | Literal::Text(c) => {
                assert_eq!(c, &cadena[1..], "Cadenas diferentes");
            }
            _ => {
                assert!(false, "Token incorrecto {:?}", token);
            }
        }
    } else {
        assert!(false, "Token incorrecto {:?}", token);
    }
}

#[test]
fn simple_string_validation() {
    string_validation("\"CHAR CONTAINT POSTERIOR 16BYTES\"");
    string_validation("\"CHAR CONTAINT POSTERIOR 17BYTES \"");
    string_validation("\"WITHOUT SIMD\"");
    string_validation(r##""USING COMPLEX STRING\\""##);
    string_validation(r##""USING COMPLEX STRING\\\\\\\\\\\\\"""##);
    string_validation(r##""USING\n\" COMPLEX STRING FOR1\"""##);
}

#[test]
fn integral_line() {
    let mut lexer = Lexer::new("\n\n\nA\n\n\nB\n").unwrap();

    let a = lexer
        .next_skip_ln()
        .expect("Deberia haber token")
        .expect("No deberia haber error");
    assert_eq!(lexer.line(), 4, "Error en los saltos de lineas");
    assert_eq!(a, Token::Identifier("A"));

    let b = lexer
        .next_skip_ln()
        .expect("Deberia haber token")
        .expect("No deberia haber error");
    assert_eq!(lexer.line(), 7, "Error en los saltos de lineas");
    assert_eq!(b, Token::Identifier("B"));

    let n = lexer
        .next()
        .expect("Deberia haber token")
        .expect("No deberia haber error");
    assert_eq!(lexer.line(), 8, "Error en los saltos de lineas");
    assert_eq!(n, Token::Newline, "No es un salto de linea");
}

#[test]
fn number_simd() {
    const NUMBER: i64 = 638_419_205_746_139_852;
    let strn = format!("{}", NUMBER);
    let mut lexer = Lexer::new(&strn).unwrap();
    match lexer.next() {
        Some(Ok(Token::Value(LoomValue::Raw(Literal::Integer(v))))) => {
            assert_eq!(v, NUMBER, "Valor incorrecto");
        }
        _ => {
            assert!(false, "El valor deberia ser un numero");
        }
    }
}

#[test]
fn unescape() {
    let fmrt1 = r#"Hello\n\tComer\"""#;
    let rs1 = "Hello\n\tComer\"";
    assert_eq!(
        rs1,
        unescape_string(fmrt1),
        "Funciona mal el unescape_string"
    );
}

fn cmp(code: &str, btree: BTreeMap<String, Expected>) -> BTreeMap<String, Expected> {
    let val = Expected::Object(btree);
    let r = parser_string(code).expect("Error");
    assert_eq!(val, expected_of(&r), "No son iguale");
    match val {
        Expected::Object(b) => b,
        _ => {
            panic!("Deberia ser Objeto");
        }
    }
}

#[test]
fn test_parser() {
    let code1 = "ENTERO: 12, FLOTANTE: -12.3 # Usando comentarios\n CADENABRUTA: \"Hello World\"#Otro comentario para verificar que funciona\n CADENA_COMPLEJA: \"Hello\\tWorld\\nI'm GabyDev0\\nBye\"";
    let mut raiz = BTreeMap::new();
    raiz.insert("ENTERO".to_string(), Expected::Integer(12));
    raiz.insert("FLOTANTE".to_string(), Expected::Float(-12.3));
    raiz.insert(
        "CADENABRUTA".to_string(),
        Expected::String(String::from("Hello World")),
    );
    raiz.insert(
        "CADENA_COMPLEJA".to_string(),
        Expected::String(String::from("Hello\tWorld\nI'm GabyDev0\nBye")),
    );
    raiz = cmp(code1, raiz);

    let code2 = "ENTERO: 12\nFLOTANTE: -12.3, CADENABRUTA: \"Hello World\"\n Array[1,2 # Testeo con un comentario\n3]";
    let vec = vec![
        Expected::Integer(1),
        Expected::Integer(2),
        Expected::Integer(3),
    ];
    raiz.remove("CADENA_COMPLEJA");
    raiz.insert("Array".to_string(), Expected::Array(vec));

    let obj = cmp(code2, raiz);
    raiz = BTreeMap::new();
    raiz.insert("LOCO".to_string(), Expected::Boolean(true));
    raiz.insert("NULL".to_string(), Expected::Nil);
    raiz.insert("Inf".to_string(), Expected::Float(f64::INFINITY));
    raiz.insert("nah".to_string(), Expected::Boolean(false));
    raiz.insert("OBJ".to_string(), Expected::Object(obj));

    let code3 = "LOCO: true #explicando\nNULL: nil,Inf: Infinity\nnah:false \
                    OBJ{ \
                        ENTERO: 12, FLOTANTE: -12.3,# Comentarios se practica\n \
                        CADENABRUTA: \"Hello World\" \
                        Array[1 #Comentarios interesantes\n \
                            2,3\n] \
                    }";
    cmp(code3, raiz);
}

#[test]
fn test_error() {
    assert_eq!(
        parser_string("OBJ { ENTERO: 12"),
        Err(LoomError::UnexpectedEOF)
    );
    assert_eq!(
        parser_string("Array [1, 2, 3"),
        Err(LoomError::UnexpectedEOF)
    );
    assert_eq!(
        parser_string("ENTERO:: 12"),
        Err(LoomError::UnexpectedToken(String::from(":")))
    );
    assert_eq!(
        parser_string("1234"),
        Err(LoomError::UnexpectedToken(String::from("1234")))
    );
    assert_eq!(
        parser_string("OBJ { 12"),
        Err(LoomError::UnexpectedToken(String::from("12")))
    );
    assert_eq!(
        parser_string("Num1: 12, Num2: ñ"),
        Err(LoomError::Lexical(LexError::InvalidCharacter('ñ')))
    );
}
