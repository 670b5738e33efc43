//! Edge cases of evaluation.

use ows_runtime::expressions::eval::{eval_single, Env};
use ows_runtime::expressions::parser::parse;
use ows_runtime::json::{Number, Object, Value};

/// Reads a value from JSON text.
fn j(text: &str) -> Value {
    convert(&serde_json::from_str(text).unwrap())
}

fn convert(v: &serde_json::Value) -> Value {
    match v {
        serde_json::Value::Null => Value::Null,
        serde_json::Value::Bool(b) => Value::Bool(*b),
        serde_json::Value::Number(n) => Value::Number(if let Some(u) = n.as_u64() {
            Number::PosInt(u)
        } else if let Some(i) = n.as_i64() {
            Number::NegInt(i)
        } else {
            Number::Float(n.as_f64().unwrap().to_bits())
        }),
        serde_json::Value::String(s) => Value::String(s.clone()),
        serde_json::Value::Array(items) => Value::Array(items.iter().map(convert).collect()),
        serde_json::Value::Object(map) => {
            let mut o = Object::new();
            for (k, v) in map {
                o.insert(k.clone(), convert(v));
            }
            Value::Object(o)
        }
    }
}

fn evalv(expr: &str, input: Value) -> Value {
    let e = parse(expr).unwrap_or_else(|e| panic!("parse `{expr}`: {e:?}"));
    eval_single(&e, &input, &Env::new(Object::new()))
        .unwrap_or_else(|e| panic!("eval `{expr}`: {e:?}"))
}

#[test]
fn mixed_type_addition() {
    assert_eq!(evalv("1 + \"a\"", j(r#"null"#)), j(r#""1a""#));
    assert_eq!(evalv("[1] + \"a\"", j(r#"null"#)), j(r#""[1]a""#));
}

#[test]
fn array_iteration_and_field() {
    assert_eq!(evalv("[.name]", j(r#"{"a":1}"#)), j(r#"[null]"#));
    assert_eq!(evalv(".items[0]", j(r#"{"items":[5,6]}"#)), j(r#"5"#));
    assert_eq!(
        evalv(".name", j(r#"[{"name":"a"},{"name":"b"}]"#)),
        j(r#"["a", "b"]"#)
    );
}

#[test]
fn object_computed_keys_and_values() {
    let e = parse("{($k): $v}").unwrap();
    let mut vars = Object::new();
    vars.insert("k".to_string(), j(r#""key""#));
    vars.insert("v".to_string(), j(r#"7"#));
    let out = eval_single(&e, &j(r#"null"#), &Env::new(vars)).unwrap();
    assert_eq!(out, j(r#"{"key":7}"#));
}

#[test]
fn tostring_of_complex_values() {
    assert_eq!(evalv("tostring", j(r#"{"a":1}"#)), j(r#""{\"a\":1}""#));
    assert_eq!(evalv("tostring", j(r#"[1, 2]"#)), j(r#""[1,2]""#));
    assert_eq!(evalv("tostring", j(r#"null"#)), j(r#""null""#));
}

#[test]
fn empty_function_produces_no_output() {
    // empty in a stream; eval_single takes last which is null when empty.
    let e = parse("empty").unwrap();
    assert_eq!(
        eval_single(&e, &j(r#"null"#), &Env::new(Object::new())).unwrap(),
        Value::Null
    );
}

#[test]
fn range_single_arg() {
    assert_eq!(evalv("[range(3)]", j(r#"null"#)), j(r#"[0, 1, 2]"#));
}

#[test]
fn first_last_on_scalar() {
    assert_eq!(evalv("first", j(r#"42"#)), j(r#"42"#));
    assert_eq!(evalv("last", j(r#"42"#)), j(r#"42"#));
}

#[test]
fn object_index_with_string() {
    assert_eq!(evalv(".[\"a\"]", j(r#"{"a": 9}"#)), j(r#"9"#));
}

#[test]
fn error_function_fails() {
    let e = parse("error(\"custom boom\")").unwrap();
    assert!(eval_single(&e, &j(r#"null"#), &Env::new(Object::new())).is_err());
}

#[test]
fn if_without_else() {
    assert_eq!(evalv("if true then 1 end", j(r#"null"#)), j(r#"1"#));
    assert_eq!(evalv("if false then 1 end", j(r#"null"#)), j(r#"null"#));
}

#[test]
fn string_index() {
    assert_eq!(evalv(".[1]", j(r#""abc""#)), j(r#""b""#));
    assert_eq!(evalv(".[-1]", j(r#""abc""#)), j(r#""c""#));
}

#[test]
fn add_null_identity() {
    assert_eq!(evalv("null + \"x\"", j(r#"null"#)), j(r#""x""#));
    assert_eq!(evalv("\"x\" + null", j(r#"null"#)), j(r#""x""#));
    assert_eq!(evalv("null + 5", j(r#"null"#)), j(r#"5"#));
    assert_eq!(evalv("null + [1]", j(r#"null"#)), j(r#"[1]"#));
    assert_eq!(evalv("null + {a:1}", j(r#"null"#)), j(r#"{"a":1}"#));
}

#[test]
fn div_by_string_split() {
    assert_eq!(
        evalv("\"a/b/c\" / \"/\"", j(r#"null"#)),
        j(r#"["a", "b", "c"]"#)
    );
}

#[test]
fn nested_object_variable_projection() {
    let out = evalv(
        "{ total: (.items | map(.n) | add) }",
        j(r#"{"items":[{"n":1},{"n":2}]}"#),
    );
    assert_eq!(out, j(r#"{"total": 3}"#));
}
