//! Error paths of evaluation.

use ows_runtime::expressions::eval::{eval_single, Env};
use ows_runtime::expressions::parser::parse;
use ows_runtime::json::{Number, Object, Value};

/// Reads a value from JSON text.
fn j(text: &str) -> Value {
    convert(&serde_json::from_str(text).unwrap())
}

fn convert(v: &serde_json::Value) -> Value {
    match v {
        serde_json::Value::Null => Value::Null,
        serde_json::Value::Bool(b) => Value::Bool(*b),
        serde_json::Value::Number(n) => Value::Number(if let Some(u) = n.as_u64() {
            Number::PosInt(u)
        } else if let Some(i) = n.as_i64() {
            Number::NegInt(i)
        } else {
            Number::Float(n.as_f64().unwrap().to_bits())
        }),
        serde_json::Value::String(s) => Value::String(s.clone()),
        serde_json::Value::Array(items) => Value::Array(items.iter().map(convert).collect()),
        serde_json::Value::Object(map) => {
            let mut o = Object::new();
            for (k, v) in map {
                o.insert(k.clone(), convert(v));
            }
            Value::Object(o)
        }
    }
}

fn evalv(expr: &str, input: Value) -> Value {
    let e = parse(expr).unwrap();
    eval_single(&e, &input, &Env::new(Object::new())).unwrap()
}

fn evalf(expr: &str, input: Value) -> Result<Value, ows_runtime::expressions::error::ExpressionError> {
    let e = parse(expr).unwrap();
    eval_single(&e, &input, &Env::new(Object::new()))
}

#[test]
fn join_empty_and_select_no_match() {
    assert_eq!(evalv("join(\",\")", j(r#"[]"#)), j(r#""""#));
    assert_eq!(evalv("select(. > 10)", j(r#"5"#)), j(r#"null"#));
}

#[test]
fn error_function_without_args() {
    assert!(evalf("error", j(r#""oops""#)).is_err());
}

#[test]
fn contains_array_and_object() {
    assert_eq!(evalv("contains([2])", j(r#"[1, 2, 3]"#)), j(r#"true"#));
    assert_eq!(evalv("contains([9])", j(r#"[1, 2]"#)), j(r#"false"#));
    assert_eq!(evalv("contains({a:1})", j(r#"{"a":1,"b":2}"#)), j(r#"true"#));
}

#[test]
fn tonumber_parse_error() {
    assert!(evalf("tonumber", j(r#""abc""#)).is_err());
}

#[test]
fn range_negative() {
    assert_eq!(evalv("[range(-2)]", j(r#"null"#)), j(r#"[]"#));
}

#[test]
fn to_string_primitives() {
    assert_eq!(evalv("tostring", j(r#"true"#)), j(r#""true""#));
    assert_eq!(evalv("tostring", j(r#"false"#)), j(r#""false""#));
}

#[test]
fn map_and_join_pipeline() {
    assert_eq!(
        evalv(
            ".pets | map(.name) | join(\", \")",
            j(r#"{"pets":[{"name":"a"},{"name":"b"}]}"#)
        ),
        j(r#""a, b""#)
    );
}

#[test]
fn nested_arithmetic_and_parentheses() {
    assert_eq!(evalv("(1 + 2) * (3 + 4)", j(r#"null"#)), j(r#"21"#));
    assert_eq!(evalv("2 * 3 + 4", j(r#"null"#)), j(r#"10"#));
}

#[test]
fn values_empty_stream() {
    assert_eq!(evalv("[.[] | empty] | length", j(r#"[1, 2, 3]"#)), j(r#"0"#));
}

#[test]
fn alternative_and_type_mix() {
    assert_eq!(
        evalv(".missing // \"fallback\"", j(r#"{"a":1}"#)),
        j(r#""fallback""#)
    );
}

#[test]
fn unary_negation_negative_number() {
    assert_eq!(evalv("-(-5)", j(r#"null"#)), j(r#"5"#));
}
