//! Values read from JSON and YAML, and rows read back.

use ows_runtime::document::{
    from_node, read_json, read_yaml, to_node, write_pretty, write_yaml,
};
use ows_runtime::json::{Number, Object, Value};
use ows_runtime::phase::Phase;
use ows_runtime::store::{load_payload, load_row, row_from_record, ExecutionRecord};
use ows_runtime::value::write_json;

fn object(members: Vec<(&str, Value)>) -> Value {
    let mut o = Object::new();
    for (k, v) in members {
        o.insert(k.to_string(), v);
    }
    Value::Object(o)
}

#[test]
fn yaml_values() {
    let text = "b: [1, -2, 1.5, true, ~]\na: 'x'\nc: {}\n";
    let items = vec![
        Value::Number(Number::PosInt(1)),
        Value::Number(Number::NegInt(-2)),
        Value::Number(Number::Float(1.5f64.to_bits())),
        Value::Bool(true),
        Value::Null,
    ];
    let expected = object(vec![
        ("c", Value::Object(Object::new())),
        ("b", Value::Array(items)),
        ("a", Value::String("x".into())),
    ]);
    assert_eq!(read_yaml(text), Ok(expected));
    assert_eq!(read_yaml(".inf"), Ok(Value::Null));
    assert_eq!(read_yaml(""), Ok(Value::Null));
    assert!(read_yaml("[1").is_err());
}

#[test]
fn json_values() {
    assert_eq!(read_json(" 18446744073709551615 "), Ok(Value::Number(Number::PosInt(u64::MAX))));
    assert_eq!(read_json("-9223372036854775808"), Ok(Value::Number(Number::NegInt(i64::MIN))));
    assert_eq!(read_json("-0"), Ok(Value::Number(Number::Float((-0.0f64).to_bits()))));
    assert_eq!(
        read_json("{\"b\": 1, \"a\": [null], \"b\": \"\\u00e9\"}"),
        Ok(object(vec![("a", Value::Array(vec![Value::Null])), ("b", Value::String("é".into()))]))
    );
    assert!(read_json("{").is_err());
    assert!(read_json("01").is_err());
    assert!(read_json("1e999").is_err());
    let e = read_json("[1,]").unwrap_err();
    assert_eq!(e, "trailing comma at line 1 column 4");
}

#[test]
fn what_was_written_is_read_back() {
    let mut v = object(vec![
        ("", Value::String("\u{1}\u{7f}\"\\\n\u{10ffff}".into())),
        ("n", Value::Array(vec![
            Value::Number(Number::PosInt(u64::MAX)),
            Value::Number(Number::NegInt(i64::MIN)),
            Value::Bool(false),
        ])),
    ]);
    assert_eq!(read_json(&write_json(&v)).as_ref(), Ok(&v));
    for _ in 0..125 {
        v = Value::Array(vec![v]);
    }
    assert_eq!(read_json(&write_json(&v)).as_ref(), Ok(&v));
    v = Value::Array(vec![v]);
    assert!(read_json(&write_json(&v)).is_err());
}

fn record(error: Option<Value>) -> ExecutionRecord {
    ExecutionRecord {
        execution_id: "e".into(),
        workflow: "w".into(),
        namespace: "n".into(),
        name: "m".into(),
        version: "1".into(),
        phase: Phase::Running,
        context: object(vec![("k", Value::Number(Number::PosInt(7)))]),
        pointer: Value::String("/do/0".into()),
        error,
        started_at: -3,
    }
}

#[test]
fn rows_are_read_back() {
    for error in [None, Some(Value::Null), Some(Value::Array(vec![Value::Bool(true)]))] {
        let r = load_row("sqlite", row_from_record(&record(error))).unwrap();
        let again = row_from_record(&r);
        assert_eq!(again.context, "{\"k\":7}");
        assert_eq!(again.pointer, "\"/do/0\"");
        assert_eq!((again.execution_id.as_str(), again.started_at), ("e", -3));
        assert_eq!(r.phase, Phase::Running);
    }
}

#[test]
fn rows_that_cannot_be_read() {
    let detail = |change: fn(&mut ows_runtime::store::ExecutionRow)| {
        let mut row = row_from_record(&record(Some(Value::Null)));
        change(&mut row);
        load_row("sqlite", row).unwrap_err().problem.detail.unwrap()
    };
    assert_eq!(detail(|r| r.phase = "x".into()), "sqlite store load: unknown phase `x`");
    let eof = "sqlite store decoding value: EOF while parsing a value at line 1 column 0";
    assert_eq!(detail(|r| r.context = String::new()), eof);
    assert_eq!(detail(|r| r.pointer = String::new()), eof);
    assert_eq!(detail(|r| r.error = Some(String::new())), eof);
    assert_eq!(load_payload("postgres", "[1]").unwrap(), Value::Array(vec![
        Value::Number(Number::PosInt(1)),
    ]));
    let e = load_payload("postgres", "").unwrap_err();
    assert_eq!(
        e.problem.detail.unwrap(),
        "postgres store decoding value: EOF while parsing a value at line 1 column 0"
    );
}

#[test]
fn values_are_handed_out_and_taken_back() {
    let v = object(vec![
        ("f", Value::Number(Number::Float(0.1f64.to_bits()))),
        ("z", Value::Number(Number::Float((-0.0f64).to_bits()))),
        ("m", Value::Number(Number::Float(f64::MAX.to_bits()))),
        ("t", Value::Number(Number::Float(5e-324f64.to_bits()))),
        ("i", Value::Array(vec![
            Value::Number(Number::PosInt(u64::MAX)),
            Value::Number(Number::NegInt(i64::MIN)),
        ])),
    ]);
    let n = to_node(&v);
    assert_eq!(n["f"].as_f64(), Some(0.1));
    assert_eq!(n["i"][0].as_u64(), Some(u64::MAX));
    assert_eq!(from_node(&n), v);
    let odd = Value::Array(vec![
        Value::Number(Number::Float(f64::NAN.to_bits())),
        Value::Number(Number::NegInt(3)),
    ]);
    let held = Value::Array(vec![Value::Null, Value::Number(Number::PosInt(3))]);
    assert_eq!(from_node(&to_node(&odd)), held);
}

#[test]
fn values_are_written() {
    let v = object(vec![("b", Value::Bool(true)), ("a", Value::Array(vec![Value::Null]))]);
    assert_eq!(write_yaml(&v).unwrap(), "a:\n- null\nb: true\n");
    assert_eq!(write_pretty(&v).unwrap(), "{\n  \"a\": [\n    null\n  ],\n  \"b\": true\n}");
    assert_eq!(read_json(&write_pretty(&v).unwrap()), Ok(v));
}
