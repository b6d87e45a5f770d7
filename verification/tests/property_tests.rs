use json_parser::parse_json_from_iter;
use json_parser::parse_json_string;
use json_parser::JsonError;
use json_parser::JsonNumber;
use json_parser::JsonObject;

/// The floating-point magnitude of a decoded number literal.
fn to_f64(n: &JsonNumber) -> f64 {
    let mut number = 0.0_f64;
    for &d in &n.int_digits {
        number = number * 10.0 + d as f64;
    }
    let mut p = 1_i32;
    for &d in &n.frac_digits {
        number += d as f64 / 10_f64.powi(p);
        p += 1;
    }
    let mut exp = 0_i32;
    for &d in &n.exp_digits {
        exp = exp * 10 + d as i32;
    }
    if n.exp_negative {
        exp = -exp;
    }
    number *= 10_f64.powi(exp);
    if n.negative {
        -number
    } else {
        number
    }
}

fn write_string(out: &mut String, s: &str) {
    out.push('"');
    for c in s.chars() {
        if c == '"' || c == '\\' {
            out.push('\\');
        }
        out.push(c);
    }
    out.push('"');
}

fn write_digits(out: &mut String, ds: &[u8]) {
    for &d in ds {
        out.push((b'0' + d) as char);
    }
}

/// A minimal writer: the canonical text form of a value tree, quotes and
/// backslashes escaped, numbers written digit for digit, no whitespace.
fn write_value(v: &JsonObject) -> String {
    let mut out = String::new();
    match v {
        JsonObject::Null => out.push_str("null"),
        JsonObject::Boolean(true) => out.push_str("true"),
        JsonObject::Boolean(false) => out.push_str("false"),
        JsonObject::Number(n) => {
            if n.negative {
                out.push('-');
            }
            write_digits(&mut out, &n.int_digits);
            if !n.frac_digits.is_empty() {
                out.push('.');
                write_digits(&mut out, &n.frac_digits);
            }
            if !n.exp_digits.is_empty() {
                out.push('e');
                if n.exp_negative {
                    out.push('-');
                }
                write_digits(&mut out, &n.exp_digits);
            }
        }
        JsonObject::String(s) => write_string(&mut out, s),
        JsonObject::Array(items) => {
            out.push('[');
            for (i, item) in items.iter().enumerate() {
                if i > 0 {
                    out.push(',');
                }
                out.push_str(&write_value(item));
            }
            out.push(']');
        }
        JsonObject::Object(o) => {
            out.push('{');
            for (i, (key, value)) in o.entries().iter().enumerate() {
                if i > 0 {
                    out.push(',');
                }
                write_string(&mut out, key);
                out.push(':');
                out.push_str(&write_value(value));
            }
            out.push('}');
        }
    }
    out
}

#[test]
fn zero_and_leading_zero() {
    assert!(
        matches!(parse_json_string("0").unwrap(), JsonObject::Number(ref n) if to_f64(n) == 0.0)
    );
    assert!(
        matches!(parse_json_string("123").unwrap(), JsonObject::Number(ref n) if to_f64(n) == 123.0)
    );
    assert_eq!(parse_json_string("01"), Err(JsonError::LeadingZero));
}

#[test]
fn scientific_notation() {
    let v = parse_json_string("1.6E-35").unwrap();
    let n = v.number().expect("a number");
    let x = to_f64(n);
    assert!((x - 1.6e-35).abs() <= 0.01 * 1.6e-35);
}

#[test]
fn number_shapes() {
    let cases: [(&str, f64); 7] = [
        ("2e3", 2000.0),
        ("-1.5e+2", -150.0),
        ("0e5", 0.0),
        ("-0.25", -0.25),
        ("10.75", 10.75),
        ("1.", 1.0),
        ("0.5", 0.5),
    ];
    for (text, expected) in cases {
        let v = parse_json_string(text).unwrap();
        let n = v.number().expect("a number");
        assert_eq!(to_f64(n), expected, "{}", text);
    }
}

#[test]
fn malformed_exponents() {
    assert_eq!(parse_json_string("1e"), Err(JsonError::EarlyEndOfStream));
    assert_eq!(parse_json_string("1e+"), Err(JsonError::EarlyEndOfStream));
    assert_eq!(parse_json_string("1ex"), Err(JsonError::UnexpectedChar('x')));
}

#[test]
fn unicode_escapes() {
    assert_eq!(
        parse_json_string(r#""\u0041""#).unwrap(),
        JsonObject::String("A".to_string())
    );

    let v = parse_json_string(r#""\uD83D\uDE10""#).unwrap();
    match v {
        JsonObject::String(s) => {
            assert_eq!(s.chars().count(), 1);
            assert_eq!(s.chars().next().unwrap(), '\u{1F610}');
        }
        _ => panic!(),
    }
}

#[test]
fn lone_high_surrogate() {
    assert_eq!(
        parse_json_string(r#""\uD800""#),
        Err(JsonError::InvalidUnicode)
    );
}

#[test]
fn simple_escapes() {
    assert_eq!(
        parse_json_string(r#""a\n\t\r\f\b\/\\\"z""#).unwrap(),
        JsonObject::String("a\n\t\r\u{c}\u{8}/\\\"z".to_string())
    );
    assert_eq!(
        parse_json_string(r#""\x""#),
        Err(JsonError::UnknownEscapeCharacter('x'))
    );
}

#[test]
fn duplicate_keys_first_match() {
    let v = parse_json_string(r#"{"a":1,"a":2}"#).unwrap();
    let o = v.object().expect("an object");
    assert_eq!(o.entries().len(), 2);
    let first = o.get("a").expect("a value");
    assert_eq!(to_f64(first.number().unwrap()), 1.0);
}

#[test]
fn error_cases() {
    assert!(parse_json_string("[true} ").is_err());
    assert_eq!(parse_json_string("[true} "), Err(JsonError::UnexpectedChar('}')));
    assert_eq!(parse_json_string("tru"), Err(JsonError::UnexpectedKeyword));
    assert_eq!(parse_json_string(""), Err(JsonError::EarlyEndOfStream));
    assert_eq!(parse_json_string("x"), Err(JsonError::UnexpectedChar('x')));
    assert_eq!(parse_json_string(r#""abc"#), Err(JsonError::EarlyEndOfStream));
}

#[test]
fn extra_chars() {
    assert_eq!(
        parse_json_string("123 abc"),
        Err(JsonError::ExtraChars(vec!['a', 'b', 'c']))
    );
}

#[test]
fn whitespace_is_skipped() {
    assert_eq!(parse_json_string(" \t\n null \t\n ").unwrap(), JsonObject::Null);
}

#[test]
fn parse_from_char_buffer() {
    let chars: Vec<char> = "[null, true]".chars().collect();
    let v = parse_json_from_iter(&chars).unwrap();
    match v {
        JsonObject::Array(items) => {
            assert!(matches!(
                items.as_slice(),
                [JsonObject::Null, JsonObject::Boolean(true)]
            ));
        }
        _ => panic!(),
    }
}

#[test]
fn round_trip_through_writer() {
    let text = r#"{
        "k" : [ 1.5e-3, "a\"b\\c", true, null, { "x" : {} }, [] ],
        "m" : -0.25,
        "done" : false
    }"#;
    let first = parse_json_string(text).unwrap();
    let written = write_value(&first);
    let second = parse_json_string(&written).unwrap();
    assert_eq!(first, second);
}

#[test]
fn round_trip_scalar_values() {
    for text in ["null", "true", "false", "42", "-7.5", "\"he\\\"llo\"", "[]", "{}"] {
        let first = parse_json_string(text).unwrap();
        let second = parse_json_string(&write_value(&first)).unwrap();
        assert_eq!(first, second, "{}", text);
    }
}
