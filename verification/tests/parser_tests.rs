use json_parser::parse_json_string;
use json_parser::JsonNumber;
use json_parser::JsonObject;

/// The floating-point magnitude of a decoded number literal:
/// `(-1)^negative * (int.frac) * 10^(±exp)`, accumulated digit by digit.
fn to_f64(n: &JsonNumber) -> f64 {
    let mut number = 0.0_f64;
    for &d in &n.int_digits {
        number = number * 10.0 + d as f64;
    }
    let mut p = 1_i32;
    for &d in &n.frac_digits {
        number += d as f64 / 10_f64.powi(p);
        p += 1;
    }
    let mut exp = 0_i32;
    for &d in &n.exp_digits {
        exp = exp * 10 + d as i32;
    }
    if n.exp_negative {
        exp = -exp;
    }
    number *= 10_f64.powi(exp);
    if n.negative {
        -number
    } else {
        number
    }
}

#[test]
fn null_type() {
    assert_eq!(parse_json_string("null").unwrap(), JsonObject::Null);
}

#[test]
fn basic_boolean() {
    assert!(matches!(
        parse_json_string("true").unwrap(),
        JsonObject::Boolean(true)
    ));

    assert!(matches!(
        parse_json_string("false").unwrap(),
        JsonObject::Boolean(false)
    ));
}

#[test]
fn array_one_element() {
    let result = parse_json_string("[ true ]").unwrap();

    match result {
        JsonObject::Array(array) => {
            assert!(matches!(array.as_slice(), [JsonObject::Boolean(true),]));
        }
        _ => panic!(),
    }

    let result = parse_json_string("[ 123 ]").unwrap();

    match result {
        JsonObject::Array(array) => match &array[0] {
            JsonObject::Number(n) => assert_eq!(to_f64(n), 123.),
            _ => panic!(),
        },
        _ => panic!(),
    }
}

#[test]
fn array_multiple_elements() {
    let result = parse_json_string("[null, true, false]").unwrap();

    match result {
        JsonObject::Array(array) => {
            assert!(matches!(
                array.as_slice(),
                [
                    JsonObject::Null,
                    JsonObject::Boolean(true),
                    JsonObject::Boolean(false)
                ]
            ));
        }
        _ => panic!(),
    }
}

#[test]
fn empty_array() {
    let result = parse_json_string("    [ ]    ").unwrap();

    match result {
        JsonObject::Array(array) => {
            assert!(matches!(array.as_slice(), []));
        }
        _ => panic!(),
    }

    let result = parse_json_string("[]").unwrap();

    match result {
        JsonObject::Array(array) => {
            assert!(matches!(array.as_slice(), []));
        }
        _ => panic!(),
    }
}

#[test]
fn nested_array_type() {
    parse_json_string("[true, [ null, 123.321 ] ]").unwrap();
    parse_json_string("[true, [ null, 123] ]").unwrap();
}

#[test]
fn empty_object() {
    parse_json_string("{}").unwrap();
}

#[test]
fn just_a_number() {
    assert!(
        matches!(parse_json_string("123").unwrap(), JsonObject::Number(ref n) if to_f64(n) == 123.)
    );

    parse_json_string("    3216546549879876214351.25416546546545646546546321   ").unwrap();

    assert!(
        matches!(parse_json_string("123 ").unwrap(), JsonObject::Number(ref n) if to_f64(n) == 123.)
    );
}

#[test]
fn getters() -> Result<(), Box<dyn std::error::Error>> {
    let result = parse_json_string(" 123456789 ")
        .map_err(|e| format!("{:?}", e))?
        .into_number()
        .ok_or("not a number")?;

    assert_eq!(123456789., to_f64(&result));

    Ok(())
}

#[test]
fn complex_object() -> Result<(), Box<dyn std::error::Error>> {
    let mut json = parse_json_string(
        r#"{
                "my_array" : [   727 ,     42 , 73      ],
                "my_null" : null   ,
                "my_object"   :   {
                    "inner key" : 123.3214
                },
                "empty object" : { }
        }"#,
    )
    .map_err(|e| format!("{:?}", e))?;

    let maybe: Option<()> = (|| {
        json.object_mut()?
            .get_mut("my_array")?
            .array_mut()?
            .sort_by(|a, b| {
                to_f64(a.number().unwrap())
                    .partial_cmp(&to_f64(b.number().unwrap()))
                    .unwrap()
            });

        if json
            .object()?
            .get("my_array")?
            .array()?
            .iter()
            .map(|v| to_f64(v.number().unwrap()))
            .eq([42., 73., 727.])
        {
            Some(())
        } else {
            None
        }
    })();

    maybe.ok_or("nope".into())
}
