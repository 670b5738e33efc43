//! Operators and functions of the expression language.

use ows_runtime::expressions::eval::{eval_single, Env};
use ows_runtime::expressions::parser::parse;
use ows_runtime::json::{Number, Object, Value};

/// Reads a value from JSON text.
fn j(text: &str) -> Value {
    convert(&serde_json::from_str(text).unwrap())
}

fn convert(v: &serde_json::Value) -> Value {
    match v {
        serde_json::Value::Null => Value::Null,
        serde_json::Value::Bool(b) => Value::Bool(*b),
        serde_json::Value::Number(n) => Value::Number(if let Some(u) = n.as_u64() {
            Number::PosInt(u)
        } else if let Some(i) = n.as_i64() {
            Number::NegInt(i)
        } else {
            Number::Float(n.as_f64().unwrap().to_bits())
        }),
        serde_json::Value::String(s) => Value::String(s.clone()),
        serde_json::Value::Array(items) => Value::Array(items.iter().map(convert).collect()),
        serde_json::Value::Object(map) => {
            let mut o = Object::new();
            for (k, v) in map {
                o.insert(k.clone(), convert(v));
            }
            Value::Object(o)
        }
    }
}

fn evalv(expr: &str, input: Value) -> Value {
    let e = parse(expr).unwrap_or_else(|e| panic!("parse `{expr}`: {e:?}"));
    eval_single(&e, &input, &Env::new(Object::new()))
        .unwrap_or_else(|e| panic!("eval `{expr}`: {e:?}"))
}

fn eval_vars(expr: &str, input: Value, vars: Object) -> Value {
    let e = parse(expr).unwrap();
    eval_single(&e, &input, &Env::new(vars)).unwrap()
}

// ---- literals and arithmetic ----

#[test]
fn literals() {
    assert_eq!(evalv("1", j(r#"null"#)), j(r#"1"#));
    assert_eq!(evalv("1.5", j(r#"null"#)), j(r#"1.5"#));
    assert_eq!(evalv("\"hi\"", j(r#"null"#)), j(r#""hi""#));
    assert_eq!(evalv("true", j(r#"null"#)), j(r#"true"#));
    assert_eq!(evalv("null", j(r#"null"#)), j(r#"null"#));
    assert_eq!(evalv("[1,2]", j(r#"null"#)), j(r#"[1, 2]"#));
}

#[test]
fn arithmetic_integer_preserved() {
    assert_eq!(evalv("1000000 + 1", j(r#"null"#)), j(r#"1000001"#));
    assert_eq!(evalv("10 - 3", j(r#"null"#)), j(r#"7"#));
    assert_eq!(evalv("6 * 7", j(r#"null"#)), j(r#"42"#));
    assert_eq!(evalv("7 / 2", j(r#"null"#)), j(r#"3.5"#));
    assert_eq!(evalv("10 % 3", j(r#"null"#)), j(r#"1"#));
    assert_eq!(evalv("-5", j(r#"null"#)), j(r#"-5"#));
}

#[test]
fn arithmetic_float() {
    assert_eq!(evalv("1.5 + 2.25", j(r#"null"#)), j(r#"3.75"#));
    assert_eq!(evalv("2.0 * 3.5", j(r#"null"#)), j(r#"7"#));
}

#[test]
fn string_ops() {
    assert_eq!(evalv("\"foo\" + \"bar\"", j(r#"null"#)), j(r#""foobar""#));
    assert_eq!(evalv("\"ab\" * 3", j(r#"null"#)), j(r#""ababab""#));
    assert_eq!(
        evalv("\"a,b,c\" / \",\"", j(r#"null"#)),
        j(r#"["a", "b", "c"]"#)
    );
}

#[test]
fn array_and_object_ops() {
    assert_eq!(evalv("[1,2] + [3]", j(r#"null"#)), j(r#"[1, 2, 3]"#));
    assert_eq!(evalv("[1,2,3] - [2]", j(r#"null"#)), j(r#"[1, 3]"#));
    assert_eq!(evalv("{a:1} + {b:2}", j(r#"null"#)), j(r#"{"a":1,"b":2}"#));
    assert_eq!(evalv("null + [1]", j(r#"null"#)), j(r#"[1]"#));
    assert_eq!(evalv("null + \"x\"", j(r#"null"#)), j(r#""x""#));
}

// ---- comparisons and boolean ----

#[test]
fn comparisons() {
    assert_eq!(evalv("1 < 2", j(r#"null"#)), j(r#"true"#));
    assert_eq!(evalv("2 <= 2", j(r#"null"#)), j(r#"true"#));
    assert_eq!(evalv("3 > 2", j(r#"null"#)), j(r#"true"#));
    assert_eq!(evalv("3 >= 4", j(r#"null"#)), j(r#"false"#));
    assert_eq!(evalv("\"a\" < \"b\"", j(r#"null"#)), j(r#"true"#));
    assert_eq!(evalv("[1,2] < [1,3]", j(r#"null"#)), j(r#"true"#));
    assert_eq!(evalv("1 == 1.0", j(r#"null"#)), j(r#"true"#));
    assert_eq!(evalv("{a:1} == {a:1}", j(r#"null"#)), j(r#"true"#));
    assert_eq!(evalv("1 != 2", j(r#"null"#)), j(r#"true"#));
}

#[test]
fn boolean_logic() {
    assert_eq!(evalv("true and true", j(r#"null"#)), j(r#"true"#));
    assert_eq!(evalv("true and false", j(r#"null"#)), j(r#"false"#));
    assert_eq!(evalv("false or true", j(r#"null"#)), j(r#"true"#));
    assert_eq!(evalv("false or false", j(r#"null"#)), j(r#"false"#));
    assert_eq!(evalv("not false", j(r#"null"#)), j(r#"true"#));
    assert_eq!(evalv("not true", j(r#"null"#)), j(r#"false"#));
    // jq truthiness: 0 and "" are truthy.
    assert_eq!(evalv("0 and true", j(r#"null"#)), j(r#"true"#));
    assert_eq!(evalv("null or \"x\"", j(r#"null"#)), j(r#"true"#));
}

#[test]
fn alternative_operator() {
    assert_eq!(evalv("false // 5", j(r#"null"#)), j(r#"5"#));
    assert_eq!(evalv("null // 5", j(r#"null"#)), j(r#"5"#));
    assert_eq!(evalv("3 // 5", j(r#"null"#)), j(r#"3"#));
}

// ---- functions ----

#[test]
fn length_function() {
    assert_eq!(evalv("length", j(r#""hello""#)), j(r#"5"#));
    assert_eq!(evalv("length", j(r#"[1, 2, 3]"#)), j(r#"3"#));
    assert_eq!(evalv("length", j(r#"{"a":1,"b":2}"#)), j(r#"2"#));
    assert_eq!(evalv("length", j(r#"null"#)), j(r#"0"#));
    assert_eq!(evalv("length", j(r#"-5"#)), j(r#"5"#));
}

#[test]
fn keys_function() {
    assert_eq!(evalv("keys", j(r#"{"b":1,"a":2}"#)), j(r#"["a", "b"]"#));
    assert_eq!(evalv("keys", j(r#"["x", "y"]"#)), j(r#"[0, 1]"#));
}

#[test]
fn map_and_select() {
    assert_eq!(evalv("map(. * 2)", j(r#"[1, 2, 3]"#)), j(r#"[2, 4, 6]"#));
    assert_eq!(evalv("map(select(. > 1))", j(r#"[1, 2, 3]"#)), j(r#"[2, 3]"#));
}

#[test]
fn join_function() {
    assert_eq!(evalv("join(\"-\")", j(r#"["a", "b", "c"]"#)), j(r#""a-b-c""#));
    assert_eq!(evalv("join(\"\")", j(r#"[1, 2]"#)), j(r#""12""#));
}

#[test]
fn string_conversion() {
    assert_eq!(evalv("tostring", j(r#"42"#)), j(r#""42""#));
    assert_eq!(evalv("tostring", j(r#""abc""#)), j(r#""abc""#));
    assert_eq!(evalv("tonumber", j(r#""3.5""#)), j(r#"3.5"#));
    assert_eq!(evalv("tonumber", j(r#"7"#)), j(r#"7"#));
    assert_eq!(evalv("tonumber", j(r#"true"#)), j(r#"1"#));
}

#[test]
fn string_predicates() {
    assert_eq!(evalv("startswith(\"foo\")", j(r#""foobar""#)), j(r#"true"#));
    assert_eq!(evalv("endswith(\"bar\")", j(r#""foobar""#)), j(r#"true"#));
    assert_eq!(evalv("startswith(\"baz\")", j(r#""foobar""#)), j(r#"false"#));
    assert_eq!(evalv("contains(\"oba\")", j(r#""foobar""#)), j(r#"true"#));
    assert_eq!(evalv("contains(\"xyz\")", j(r#""foobar""#)), j(r#"false"#));
}

#[test]
fn split_and_trim() {
    assert_eq!(
        evalv("split(\",\")", j(r#""a,b,c""#)),
        j(r#"["a", "b", "c"]"#)
    );
    assert_eq!(evalv("ltrimstr(\"foo\")", j(r#""foobar""#)), j(r#""bar""#));
    assert_eq!(evalv("rtrimstr(\"bar\")", j(r#""foobar""#)), j(r#""foo""#));
    assert_eq!(evalv("ascii_upcase", j(r#""abc""#)), j(r#""ABC""#));
    assert_eq!(evalv("ascii_downcase", j(r#""ABC""#)), j(r#""abc""#));
}

#[test]
fn array_functions() {
    assert_eq!(evalv("first", j(r#"[1, 2, 3]"#)), j(r#"1"#));
    assert_eq!(evalv("last", j(r#"[1, 2, 3]"#)), j(r#"3"#));
    assert_eq!(evalv("flatten", j(r#"[1, [2, [3]]]"#)), j(r#"[1, 2, 3]"#));
    assert_eq!(evalv("add", j(r#"[1, 2, 3]"#)), j(r#"6"#));
    assert_eq!(evalv("add", j(r#"["a", "b"]"#)), j(r#""ab""#));
    assert_eq!(evalv("length", j(r#"[]"#)), j(r#"0"#));
}

#[test]
fn range_and_type() {
    assert_eq!(evalv("[range(0;3)]", j(r#"null"#)), j(r#"[0, 1, 2]"#));
    assert_eq!(evalv("[range(2;5)]", j(r#"null"#)), j(r#"[2, 3, 4]"#));
    assert_eq!(evalv("type", j(r#""x""#)), j(r#""string""#));
    assert_eq!(evalv("type", j(r#"1"#)), j(r#""number""#));
    assert_eq!(evalv("type", j(r#"[]"#)), j(r#""array""#));
    assert_eq!(evalv("type", j(r#"{}"#)), j(r#""object""#));
    assert_eq!(evalv("type", j(r#"null"#)), j(r#""null""#));
    assert_eq!(evalv("type", j(r#"true"#)), j(r#""boolean""#));
}

#[test]
fn has_function() {
    assert_eq!(evalv("has(\"a\")", j(r#"{"a": 1}"#)), j(r#"true"#));
    assert_eq!(evalv("has(\"b\")", j(r#"{"a": 1}"#)), j(r#"false"#));
    assert_eq!(evalv("has(0)", j(r#"["x", "y"]"#)), j(r#"true"#));
    assert_eq!(evalv("has(5)", j(r#"["x"]"#)), j(r#"false"#));
}

#[test]
fn math_functions() {
    assert_eq!(evalv("fabs", j(r#"-3.5"#)), j(r#"3.5"#));
    assert_eq!(evalv("floor", j(r#"3.7"#)), j(r#"3"#));
}

#[test]
fn type_filters() {
    assert_eq!(
        evalv("[.[] | numbers] | length", j(r#"[1, "a", 2.5]"#)),
        j(r#"2"#)
    );
    assert_eq!(
        evalv("[.[] | strings] | length", j(r#"[1, "a", "b"]"#)),
        j(r#"2"#)
    );
    assert_eq!(evalv("[.[] | nulls] | length", j(r#"[null, 1]"#)), j(r#"1"#));
    assert_eq!(evalv("[.[] | arrays] | length", j(r#"[[1], 2]"#)), j(r#"1"#));
    assert_eq!(
        evalv("[.[] | objects] | length", j(r#"[{"a":1}, 2]"#)),
        j(r#"1"#)
    );
    assert_eq!(
        evalv("[.[] | booleans] | length", j(r#"[true, 2]"#)),
        j(r#"1"#)
    );
    assert_eq!(evalv("[.[] | values] | length", j(r#"[null, 2]"#)), j(r#"1"#));
}

// ---- pipes, iteration, interpolation, objects ----

#[test]
fn pipe_and_iteration() {
    assert_eq!(evalv(".[] | . * 2", j(r#"[1, 2, 3]"#)), j(r#"6"#)); // last output
    assert_eq!(evalv("[.[]] | length", j(r#"[1, 2]"#)), j(r#"2"#));
}

#[test]
fn object_construction_cartesian() {
    assert_eq!(evalv("{a: 1, b: 2}", j(r#"null"#)), j(r#"{"a": 1, "b": 2}"#));
    assert_eq!(
        evalv("{(.k): .v}", j(r#"{"k": "x", "v": 9}"#)),
        j(r#"{"x": 9}"#)
    );
    assert_eq!(evalv("{a: [1,2][0]}", j(r#"null"#)), j(r#"{"a": 1}"#));
}

#[test]
fn string_interpolation_in_expression() {
    let v = evalv(
        r#""Hello \(.name), you are \(.age)""#,
        j(r#"{"name":"Ann","age":30}"#),
    );
    assert_eq!(v, j(r#""Hello Ann, you are 30""#));
}

#[test]
fn variables_in_expressions() {
    let mut vars = Object::new();
    vars.insert("x".to_string(), j(r#"10"#));
    assert_eq!(eval_vars("$x + 5", j(r#"null"#), vars), j(r#"15"#));
}

#[test]
fn eval_missing_field_is_null() {
    assert_eq!(evalv(".missing.deep", j(r#"{"a": 1}"#)), j(r#"null"#));
    assert_eq!(evalv(".[5]", j(r#"[1, 2]"#)), j(r#"null"#));
    assert_eq!(evalv(".[-1]", j(r#"[1, 2, 3]"#)), j(r#"3"#));
}

#[test]
fn conditional_expression() {
    assert_eq!(
        evalv(
            "if .n > 10 then \"big\" elif .n > 5 then \"mid\" else \"small\" end",
            j(r#"{"n": 7}"#)
        ),
        j(r#""mid""#)
    );
    assert_eq!(
        evalv(
            "if .n > 10 then \"big\" else \"small\" end",
            j(r#"{"n": 3}"#)
        ),
        j(r#""small""#)
    );
}

#[test]
fn unsupported_function_errors() {
    let e = parse("nonexistent_fn(1)").unwrap();
    let r = eval_single(&e, &j(r#"null"#), &Env::new(Object::new()));
    assert!(r.is_err());
}

#[test]
fn division_by_zero_errors() {
    let e = parse("1 / 0").unwrap();
    assert!(eval_single(&e, &j(r#"null"#), &Env::new(Object::new())).is_err());
}
