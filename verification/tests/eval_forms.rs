//! Errors and less common forms.

use ows_runtime::expressions::eval::{eval_single, Env};
use ows_runtime::expressions::parser::parse;
use ows_runtime::json::{Number, Object, Value};

/// Reads a value from JSON text.
fn j(text: &str) -> Value {
    convert(&serde_json::from_str(text).unwrap())
}

fn convert(v: &serde_json::Value) -> Value {
    match v {
        serde_json::Value::Null => Value::Null,
        serde_json::Value::Bool(b) => Value::Bool(*b),
        serde_json::Value::Number(n) => Value::Number(if let Some(u) = n.as_u64() {
            Number::PosInt(u)
        } else if let Some(i) = n.as_i64() {
            Number::NegInt(i)
        } else {
            Number::Float(n.as_f64().unwrap().to_bits())
        }),
        serde_json::Value::String(s) => Value::String(s.clone()),
        serde_json::Value::Array(items) => Value::Array(items.iter().map(convert).collect()),
        serde_json::Value::Object(map) => {
            let mut o = Object::new();
            for (k, v) in map {
                o.insert(k.clone(), convert(v));
            }
            Value::Object(o)
        }
    }
}

fn evalv(expr: &str, input: Value) -> Value {
    let e = parse(expr).unwrap();
    eval_single(&e, &input, &Env::new(Object::new())).unwrap()
}

fn evalf(expr: &str, input: Value) -> Result<Value, ows_runtime::expressions::error::ExpressionError> {
    let e = parse(expr).unwrap();
    eval_single(&e, &input, &Env::new(Object::new()))
}

#[test]
fn undefined_variable_errors() {
    assert!(evalf("$nope", j(r#"null"#)).is_err());
}

#[test]
fn iterate_over_object() {
    assert_eq!(evalv(".[] | . * 2", j(r#"{"a": 3}"#)), j(r#"6"#));
}

#[test]
fn negate_non_number_errors() {
    assert!(evalf("- \"x\"", j(r#"null"#)).is_err());
}

#[test]
fn stream_expressions() {
    assert_eq!(evalv("(1, 2) | . * 10", j(r#"null"#)), j(r#"20"#));
}

#[test]
fn and_short_circuits() {
    // `false and (1/0)` short-circuits without evaluating the right side.
    assert_eq!(evalv("false and (1/0)", j(r#"null"#)), j(r#"false"#));
    assert_eq!(evalv("true and false", j(r#"null"#)), j(r#"false"#));
}

#[test]
fn binary_operator_type_errors() {
    assert!(evalf("5 - \"a\"", j(r#"null"#)).is_err());
    assert!(evalf("5 / \"a\"", j(r#"null"#)).is_err());
    assert!(evalf("5 % \"a\"", j(r#"null"#)).is_err());
    assert!(evalf("5 < \"a\"", j(r#"null"#)).is_err());
}

#[test]
fn add_mixed_branches() {
    assert_eq!(evalv("1 + \"a\"", j(r#"null"#)), j(r#""1a""#));
    assert_eq!(evalv("\"a\" + 1", j(r#"null"#)), j(r#""a1""#));
    assert_eq!(evalv("[1] + \"a\"", j(r#"null"#)), j(r#""[1]a""#));
    assert_eq!(evalv("\"a\" + [1]", j(r#"null"#)), j(r#""a[1]""#));
}

#[test]
fn comparison_ge_and_array_cmp() {
    assert_eq!(evalv("1 >= 1", j(r#"null"#)), j(r#"true"#));
    assert_eq!(evalv("[1,2] >= [1,2]", j(r#"null"#)), j(r#"true"#));
}

#[test]
fn index_access_errors() {
    // Array string index returns null; non-number index errors.
    assert_eq!(evalv(".[\"a\"]", j(r#"[1, 2]"#)), j(r#"null"#));
    assert!(evalf(".[true]", j(r#"[1]"#)).is_err());
    assert!(evalf(".[\"x\"]", j(r#""abc""#)).is_err());
    // Object numeric index returns null.
    assert_eq!(evalv(".[1]", j(r#"{"a": 1}"#)), j(r#"null"#));
    // Out-of-range string index.
    assert_eq!(evalv(".[9]", j(r#""abc""#)), j(r#"null"#));
}

#[test]
fn object_with_empty_value() {
    assert_eq!(
        evalv("{a: empty, b: 1}", j(r#"null"#)),
        j(r#"{"a": null, "b": 1}"#)
    );
}

#[test]
fn mul_string_by_number() {
    assert_eq!(evalv("\"ab\" * 2", j(r#"null"#)), j(r#""abab""#));
    assert_eq!(evalv("2 * \"ab\"", j(r#"null"#)), j(r#""abab""#));
}

#[test]
fn field_access_on_array() {
    assert_eq!(evalv(".name", j(r#"[{"name":"a"}]"#)), j(r#"["a"]"#));
}
