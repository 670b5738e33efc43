//! Properties of the expression language on many values.

use ows_runtime::expressions::eval::{eval_single, Env};
use ows_runtime::expressions::parser::parse;
use ows_runtime::json::{Number, Object, Value};
use ows_runtime::value::write_json;

/// Reads a value from JSON text.
fn j(text: &str) -> Value {
    convert(&serde_json::from_str(text).unwrap())
}

fn convert(v: &serde_json::Value) -> Value {
    match v {
        serde_json::Value::Null => Value::Null,
        serde_json::Value::Bool(b) => Value::Bool(*b),
        serde_json::Value::Number(n) => Value::Number(if let Some(u) = n.as_u64() {
            Number::PosInt(u)
        } else if let Some(i) = n.as_i64() {
            Number::NegInt(i)
        } else {
            Number::Float(n.as_f64().unwrap().to_bits())
        }),
        serde_json::Value::String(s) => Value::String(s.clone()),
        serde_json::Value::Array(items) => Value::Array(items.iter().map(convert).collect()),
        serde_json::Value::Object(map) => {
            let mut o = Object::new();
            for (k, v) in map {
                o.insert(k.clone(), convert(v));
            }
            Value::Object(o)
        }
    }
}

fn samples() -> Vec<Value> {
    [
        "null", "true", "false", "0", "1", "-1", "42", "9007199254740993", "9223372036854775807",
        "-9223372036854775808", "18446744073709551615", "0.5", "-3.25", "1e300", "5e-324",
        "1.7976931348623157e308", "\"\"", "\"abc\"", "\"a\\\"b\\\\c\\n\\u0001(x)\"", "[]",
        "[1,[2,[3,null]],\"x\"]", "{}", "{\"a\":1,\"b\":{\"c\":[true,-2.5]},\"\":\"empty\"}",
    ]
    .iter()
    .map(|t| j(t))
    .collect()
}

#[test]
fn identity_is_identity() {
    for input in samples() {
        let e = parse(".").unwrap();
        let out = eval_single(&e, &input, &Env::new(Object::new())).unwrap();
        assert_eq!(out, input);
    }
}

#[test]
fn equality_with_input() {
    for input in samples() {
        let expr = format!(". == {}", write_json(&input));
        let e = parse(&expr).unwrap();
        let out = eval_single(&e, &input, &Env::new(Object::new())).unwrap();
        assert_eq!(out, Value::Bool(true), "expr {expr}");
    }
}

#[test]
fn add_zero_is_identity() {
    for n in [0i64, 1, -1, 7, -12345, i64::MAX, i64::MIN, 1 << 53, -(1 << 60)] {
        let input = j(&n.to_string());
        let e = parse(". + 0").unwrap();
        let out = eval_single(&e, &input, &Env::new(Object::new())).unwrap();
        assert_eq!(out, input);
    }
}

#[test]
fn object_roundtrip() {
    for k in ["a", "zz", "and", "if", "null", "abcd"] {
        let input = j(&format!("{{\"{k}\": -17}}"));
        let e = parse(&format!("{{ {k}: .{k} }}")).unwrap();
        let out = eval_single(&e, &input, &Env::new(Object::new())).unwrap();
        assert_eq!(out, input);
    }
}

#[test]
fn never_panics_on_garbage() {
    for src in [
        ".",
        "..",
        ".foo.bar",
        "[",
        "{",
        ")",
        ".a +",
        "if then",
        "map(",
        "\"unterminated",
        ".a.b.c[0].d",
        "[1,2,3] | .[1]",
        "{ a: .b, c: [ .d, $x ] }",
    ] {
        let _ = parse(src);
    }
}

fn value_of(source: &str, input: &Value) -> Result<Value, String> {
    let e = parse(source).map_err(|e| e.to_string())?;
    eval_single(&e, input, &Env::new(Object::new())).map_err(|e| e.to_string())
}

#[test]
fn and_or_and_the_alternative_stop_early() {
    let none = Value::Null;
    assert_eq!(value_of("false and error(\"x\")", &none), Ok(Value::Bool(false)));
    assert_eq!(value_of("null and error(\"x\")", &none), Ok(Value::Bool(false)));
    assert_eq!(value_of("0 or error(\"x\")", &none), Ok(Value::Bool(true)));
    assert_eq!(value_of("7 // error(\"x\")", &none), Ok(j("7")));
    assert_eq!(value_of("null // 8", &none), Ok(j("8")));
    assert!(value_of("true and error(\"x\")", &none).is_err());
}

#[test]
fn equality_is_an_equivalence() {
    let all = samples();
    for a in &all {
        for b in &all {
            let pair = Value::Array(vec![j(&write_json(a)), j(&write_json(b))]);
            let ab = value_of(".[0] == .[1]", &pair).unwrap();
            let ba = value_of(".[1] == .[0]", &pair).unwrap();
            assert_eq!(ab, ba);
            if write_json(a) == write_json(b) {
                assert_eq!(ab, Value::Bool(true));
            }
        }
    }
    assert_eq!(value_of("{a: 1, b: 2} == {b: 2.0, a: 1.0}", &Value::Null), Ok(Value::Bool(true)));
}

#[test]
fn order_is_mirrored_and_agrees_with_equality() {
    let texts = ["1", "2", "2.0", "-3.5", "\"a\"", "\"b\"", "[1,2]", "[1,3]", "[1]", "[]", "{}"];
    for a in texts {
        for b in texts {
            let pair = j(&format!("[{a},{b}]"));
            let less = value_of(".[0] < .[1]", &pair);
            let more = value_of(".[1] > .[0]", &pair);
            match (&less, &more) {
                (Ok(x), Ok(y)) => assert_eq!(x, y),
                (x, y) => assert!(x.is_err() && y.is_err()),
            }
            let within = value_of("(.[0] <= .[1]) and (.[1] <= .[0])", &pair);
            if within == Ok(Value::Bool(true)) {
                assert_eq!(value_of(".[0] == .[1]", &pair), Ok(Value::Bool(true)));
            }
        }
    }
}

#[test]
fn results_stay_canonical() {
    let input = j("{\"z\": 1, \"a\": {\"k\": [1, 2]}, \"m\": 1e308}");
    let out = value_of("{ q: .m, b: (.m * 10), \"a\": .z } + . + { c: 0.5 }", &input).unwrap();
    let Value::Object(o) = out else { panic!() };
    let keys: Vec<&str> = o.entries().iter().map(|e| e.0.as_str()).collect();
    assert_eq!(keys, ["a", "b", "c", "m", "q", "z"]);
    assert_eq!(o.get("b"), Some(&Value::Null));
}

#[test]
fn operators_join_fields() {
    let input = j("{\"a\": true, \"b\": 3, \"c\": null, \"and\": {\"b\": 1}}");
    assert_eq!(value_of(".a and .b", &input), Ok(Value::Bool(true)));
    assert_eq!(value_of(".c or .a", &input), Ok(Value::Bool(true)));
    assert_eq!(value_of(".a and .c", &input), Ok(Value::Bool(false)));
    assert_eq!(value_of("if .a then .b else .c end", &input), Ok(j("3")));
    assert_eq!(value_of("if .c then .b else \"no\" end", &input), Ok(j("\"no\"")));
    assert_eq!(value_of(".and.b", &input), Ok(j("1")));
    assert_eq!(value_of(".\"and\".b", &input), Ok(j("1")));
    assert_eq!(value_of(".[\"and\"].b", &input), Ok(j("1")));
    assert!(value_of(".a b", &input).is_err());
}

#[test]
fn notation_is_its_value() {
    for v in samples() {
        let out = value_of(&write_json(&v), &Value::Null).unwrap();
        let pair = Value::Array(vec![j(&write_json(&v)), out]);
        assert_eq!(value_of(".[0] == .[1]", &pair), Ok(Value::Bool(true)));
    }
}

#[test]
fn null_is_neutral() {
    for v in samples() {
        assert_eq!(value_of(". + null", &v), Ok(j(&write_json(&v))));
        assert_eq!(value_of("null + .", &v), Ok(j(&write_json(&v))));
    }
}
