//! The expression engine as a whole.

use ows_runtime::context::ExpressionEngine;
use ows_runtime::expressions::engine::{find_block_close, JqEngine};
use ows_runtime::expressions::error::ExpressionError;
use ows_runtime::expressions::eval::{eval_single, Env};
use ows_runtime::expressions::parser::parse;
use ows_runtime::json::{Number, Object, Value};

/// Reads a value from JSON text.
fn j(text: &str) -> Value {
    convert(&serde_json::from_str(text).unwrap())
}

fn convert(v: &serde_json::Value) -> Value {
    match v {
        serde_json::Value::Null => Value::Null,
        serde_json::Value::Bool(b) => Value::Bool(*b),
        serde_json::Value::Number(n) => Value::Number(if let Some(u) = n.as_u64() {
            Number::PosInt(u)
        } else if let Some(i) = n.as_i64() {
            Number::NegInt(i)
        } else {
            Number::Float(n.as_f64().unwrap().to_bits())
        }),
        serde_json::Value::String(s) => Value::String(s.clone()),
        serde_json::Value::Array(items) => Value::Array(items.iter().map(convert).collect()),
        serde_json::Value::Object(map) => {
            let mut o = Object::new();
            for (k, v) in map {
                o.insert(k.clone(), convert(v));
            }
            Value::Object(o)
        }
    }
}

fn eval_str(
    expr: &str,
    input: Value,
) -> Result<Value, ExpressionError> {
    let parsed = parse(expr)?;
    eval_single(&parsed, &input, &Env::new(Object::new()))
}

#[test]
fn identity() {
    assert_eq!(eval_str(".", j(r#"{"a": 1}"#)).unwrap(), j(r#"{"a": 1}"#));
}

#[test]
fn field_access() {
    let input = j(r#"{"user": {"name": "alice"}, "tags": ["x", "y"]}"#);
    assert_eq!(
        eval_str(".user.name", input.clone()).unwrap(),
        j(r#""alice""#)
    );
    assert_eq!(eval_str(".tags[1]", input.clone()).unwrap(), j(r#""y""#));
    assert_eq!(eval_str(".missing", input).unwrap(), j(r#"null"#));
}

#[test]
fn array_and_object_construction() {
    let input = j(r#"{"colors": ["red"]}"#);
    assert_eq!(
        eval_str(".colors + [\"green\"]", input).unwrap(),
        j(r#"["red", "green"]"#)
    );
    assert_eq!(
        eval_str("{ ids: [ 1, 2 ] }", j(r#"null"#)).unwrap(),
        j(r#"{"ids": [1, 2]}"#)
    );
}

#[test]
fn comparisons_and_boolean() {
    let input = j(r#"{"color": "red"}"#);
    assert_eq!(
        eval_str(".color == \"red\"", input.clone()).unwrap(),
        j(r#"true"#)
    );
    assert_eq!(
        eval_str(".color == \"blue\"", input.clone()).unwrap(),
        j(r#"false"#)
    );
    assert_eq!(
        eval_str(".color != \"blue\"", input.clone()).unwrap(),
        j(r#"true"#)
    );
    assert_eq!(
        eval_str(".color == \"red\" and .color != \"blue\"", input).unwrap(),
        j(r#"true"#)
    );
}

#[test]
fn pipe_and_functions() {
    let input = j(r#"[{"name": "a"}, {"name": "b"}]"#);
    assert_eq!(
        eval_str(". | map(.name) | join(\",\")", input).unwrap(),
        j(r#""a,b""#)
    );
    assert_eq!(
        eval_str(
            ".[] | select(.name == \"b\")",
            j(r#"[ {"name": "a"}, {"name": "b"} ]"#)
        )
        .unwrap(),
        j(r#"{"name": "b"}"#)
    );
}

#[test]
fn string_interpolation() {
    let input = j(r#"{"user": {"firstName": "John", "lastName": "Doe"}}"#);
    let expr = r#""Hello \(.user.firstName) \(.user.lastName)!""#;
    assert_eq!(eval_str(expr, input).unwrap(), j(r#""Hello John Doe!""#));
}

#[test]
fn truthiness_follows_jq() {
    // In jq, 0 and "" are truthy.
    assert_eq!(eval_str("0", j(r#"null"#)).unwrap(), j(r#"0"#));
    assert_eq!(eval_str(". == true", j(r#"0"#)).unwrap(), j(r#"false"#));
}

#[test]
fn engine_trait_interpolation() {
    let engine = JqEngine::new();
    // Single block returns raw value.
    let input = j(r#"{"a": 1}"#);
    let vars = Object::new();
    let v = engine
        .evaluate_interpolation("${ .a }", &input, &vars)
        .unwrap();
    assert_eq!(v, j(r#"1"#));
    // Bare string is literal.
    let v = engine
        .evaluate_interpolation("hello", &input, &vars)
        .unwrap();
    assert_eq!(v, j(r#""hello""#));
    // Embedded block in a string.
    let v = engine
        .evaluate_interpolation("count=${ .a }", &input, &vars)
        .unwrap();
    assert_eq!(v, j(r#""count=1""#));
}

#[test]
fn variables() {
    let input = j(r#"null"#);
    let mut vars = Object::new();
    vars.insert("pet".to_string(), j(r#"{"id": 7}"#));
    let parsed = parse("$pet.id").unwrap();
    let v = eval_single(&parsed, &input, &Env::new(vars)).unwrap();
    assert_eq!(v, j(r#"7"#));
}

#[test]
fn select_with_variable() {
    let input = j(r#"{"pets": [{"id": 1}, {"id": 2}]}"#);
    let mut vars = Object::new();
    vars.insert("x".to_string(), j(r#"2"#));
    let parsed = parse(".pets | map(select(.id == $x))").unwrap();
    let v = eval_single(&parsed, &input, &Env::new(vars)).unwrap();
    assert_eq!(v, j(r#"[{"id": 2}]"#));
}

#[test]
fn context_plus_current() {
    let input = j(r#"{"foo": "bar"}"#);
    let mut vars = Object::new();
    vars.insert("context".to_string(), j(r#"{"base": 1}"#));
    let parsed = parse("$context + .").unwrap();
    let v = eval_single(&parsed, &input, &Env::new(vars)).unwrap();
    assert_eq!(v, j(r#"{"base": 1, "foo": "bar"}"#));
}

#[test]
fn if_then_else() {
    let input = j(r#"{"n": 5}"#);
    assert_eq!(
        eval_str("if .n > 3 then \"big\" else \"small\" end", input).unwrap(),
        j(r#""big""#)
    );
}

#[test]
fn nested_object_with_variables() {
    let input = j(r#"{"processed": {"colors": []}}"#);
    let mut vars = Object::new();
    vars.insert("color".to_string(), j(r#""red""#));
    vars.insert("index".to_string(), j(r#"0"#));
    let parsed =
        parse("{ colors: (.processed.colors + [ $color ]), indexes: [ $index ] }").unwrap();
    let v = eval_single(&parsed, &input, &Env::new(vars)).unwrap();
    assert_eq!(v, j(r#"{"colors": ["red"], "indexes": [0]}"#));
}

#[test]
fn lib_missing_field_is_null() {
    let input = j(r#"{"a": 1}"#);
    assert_eq!(eval_str(".z.z", input).unwrap(), j(r#"null"#));
}

#[test]
fn texts_with_a_block_are_expressions() {
    let e = JqEngine::new();
    assert!(e.is_expression("count=${ .a }"));
    assert!(e.is_expression("${ .a }"));
    assert!(e.is_expression("  ${.a}"));
    assert!(!e.is_expression("plain $ { text }"));
    assert!(!e.is_expression(""));
}

#[test]
fn quotation_marks_in_comments_start_no_literal() {
    let e = JqEngine::new();
    let value = |source: &str| {
        e.evaluate_interpolation(source, &j("{\"a\": 7}"), &Object::new()).unwrap()
    };
    assert_eq!(value("${ .a # say \"\n }"), j("7"));
    assert_eq!(value("x${ .a #\"\n}y"), j("\"x7y\""));
    assert_eq!(value("${ \"}#\" }"), j("\"}#\""));
    let chars: Vec<char> = "{#\"}".chars().collect();
    assert_eq!(find_block_close(&chars, 0), Some(3));
}
