use json_parser::parse_json_string;
use json_parser::JsonNumber;
use json_parser::JsonObject;
use json_parser::Object;

/// The floating-point magnitude of a decoded number literal.
fn to_f64(n: &JsonNumber) -> f64 {
    let mut number = 0.0_f64;
    for &d in &n.int_digits {
        number = number * 10.0 + d as f64;
    }
    let mut p = 1_i32;
    for &d in &n.frac_digits {
        number += d as f64 / 10_f64.powi(p);
        p += 1;
    }
    let mut exp = 0_i32;
    for &d in &n.exp_digits {
        exp = exp * 10 + d as i32;
    }
    if n.exp_negative {
        exp = -exp;
    }
    number *= 10_f64.powi(exp);
    if n.negative {
        -number
    } else {
        number
    }
}

#[test]
fn typed_accessors_match_variants() {
    let v = parse_json_string("true").unwrap();
    assert_eq!(v.boolean(), Some(&true));
    assert!(v.number().is_none());
    assert!(v.string().is_none());
    assert!(v.object().is_none());
    assert!(v.array().is_none());
    assert_eq!(v.into_boolean(), Some(true));

    let v = parse_json_string(r#""hi""#).unwrap();
    assert_eq!(v.string(), Some(&"hi".to_string()));
    assert_eq!(v.into_string(), Some("hi".to_string()));

    let v = parse_json_string("[1]").unwrap();
    assert_eq!(v.array().map(|a| a.len()), Some(1));
    assert!(v.into_array().is_some());

    let v = parse_json_string("{}").unwrap();
    assert!(v.object().is_some());
    assert!(v.into_object().is_some());

    let v = parse_json_string("3.5").unwrap();
    assert_eq!(v.number().map(to_f64), Some(3.5));
    assert_eq!(v.into_number().map(|n| to_f64(&n)), Some(3.5));
}

#[test]
fn is_null_only_on_null() {
    assert!(parse_json_string("null").unwrap().is_null());
    assert!(!parse_json_string("0").unwrap().is_null());
    assert!(!parse_json_string("false").unwrap().is_null());
}

#[test]
fn mutation_through_accessors() {
    let mut v = parse_json_string("false").unwrap();
    if let Some(b) = v.boolean_mut() {
        *b = true;
    }
    assert_eq!(v, JsonObject::Boolean(true));

    let mut v = parse_json_string(r#"{"a": 1, "b": 2}"#).unwrap();
    let o = v.object_mut().unwrap();
    if let Some(slot) = o.get_mut("b") {
        *slot = JsonObject::Null;
    }
    assert!(matches!(o.get("b").unwrap(), JsonObject::Null));
    assert_eq!(to_f64(o.get("a").unwrap().number().unwrap()), 1.0);
}

#[test]
fn keys_and_values_in_order() {
    let v = parse_json_string(r#"{"a":1,"b":2,"a":3}"#).unwrap();
    let o = v.object().unwrap();
    assert_eq!(o.keys(), vec!["a".to_string(), "b".to_string(), "a".to_string()]);
    let values: Vec<f64> = o.values().iter().map(|v| to_f64(v.number().unwrap())).collect();
    assert_eq!(values, vec![1.0, 2.0, 3.0]);
}

#[test]
fn entries_and_entries_mut() {
    let v = parse_json_string(r#"{"a":1}"#).unwrap();
    let mut o = v.into_object().unwrap();
    assert_eq!(o.entries().len(), 1);
    o.entries_mut().push(("b".to_string(), JsonObject::Null));
    assert_eq!(o.entries().len(), 2);
    assert!(matches!(o.get("b").unwrap(), JsonObject::Null));
    assert!(o.get("missing").is_none());
    assert!(o.get_mut("missing").is_none());
}

#[test]
fn from_impl_builds_an_object() {
    let o = Object::from_impl(vec![
        ("x".to_string(), JsonObject::Boolean(true)),
        ("x".to_string(), JsonObject::Boolean(false)),
    ]);
    // lookup by key returns the first of the duplicate entries
    assert_eq!(o.get("x"), Some(&JsonObject::Boolean(true)));
}

#[test]
fn string_mut_and_number_mut() {
    let mut v = parse_json_string(r#""abc""#).unwrap();
    if let Some(s) = v.string_mut() {
        s.push('!');
    }
    assert_eq!(v.string(), Some(&"abc!".to_string()));

    let mut v = parse_json_string("8").unwrap();
    if let Some(n) = v.number_mut() {
        n.negative = true;
    }
    assert_eq!(to_f64(v.number().unwrap()), -8.0);
}

#[test]
fn array_mut_in_place() {
    let mut v = parse_json_string("[1, 2]").unwrap();
    if let Some(items) = v.array_mut() {
        items.push(JsonObject::Null);
    }
    assert_eq!(v.array().map(|a| a.len()), Some(3));
}
