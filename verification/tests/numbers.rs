//! Doubles, decimal text, character classes and text functions.

use ows_runtime::double::{
    absolute, divide, equals, finite, floor, from_i64, from_u64, minus, modulo, negate, plus,
    precedes, safe_integer, times, to_i64, to_usize, zero,
};
use ows_runtime::json::{Number, Object, Value};
use ows_runtime::number::{display_double, json_of_double, parse_double, write_exact};
use ows_runtime::text;
use ows_runtime::value::{json_num, to_string, values_same, write_json};

/// Reads a value from JSON text.
fn j(text: &str) -> Value {
    convert(&serde_json::from_str(text).unwrap())
}

fn convert(v: &serde_json::Value) -> Value {
    match v {
        serde_json::Value::Null => Value::Null,
        serde_json::Value::Bool(b) => Value::Bool(*b),
        serde_json::Value::Number(n) => Value::Number(if let Some(u) = n.as_u64() {
            Number::PosInt(u)
        } else if let Some(i) = n.as_i64() {
            Number::NegInt(i)
        } else {
            Number::Float(n.as_f64().unwrap().to_bits())
        }),
        serde_json::Value::String(s) => Value::String(s.clone()),
        serde_json::Value::Array(items) => Value::Array(items.iter().map(convert).collect()),
        serde_json::Value::Object(map) => {
            let mut o = Object::new();
            for (k, v) in map {
                o.insert(k.clone(), convert(v));
            }
            Value::Object(o)
        }
    }
}

fn values() -> Vec<f64> {
    let mut out = vec![
        0.0, -0.0, 1.0, -1.0, 0.5, -0.5, 1.5, 2.5, 3.7, -3.7, 0.1, 0.2, 0.3, 1e300, -1e300, 1e-300,
        5e-324, -5e-324, 2.2250738585072014e-308, 2.225073858507201e-308, 1.7976931348623157e308,
        9007199254740991.0, 9007199254740992.0, 9007199254740993.0, 9.223372036854775807e18,
        -9.223372036854775808e18, 1.8446744073709552e19, 123456.789, f64::INFINITY,
        f64::NEG_INFINITY, f64::NAN, f64::EPSILON, 1.0 + f64::EPSILON, 1.0 / 3.0,
    ];
    let mut state: u64 = 0x9e37_79b9_7f4a_7c15;
    for _ in 0..120 {
        state ^= state << 13;
        state ^= state >> 7;
        state ^= state << 17;
        out.push(f64::from_bits(state));
        out.push((state % 100_000) as f64 / 64.0);
    }
    out
}

fn same(bits: u64, x: f64) -> bool {
    let y = f64::from_bits(bits);
    (x.is_nan() && y.is_nan()) || x.to_bits() == bits
}

#[test]
fn arithmetic_is_that_of_doubles() {
    for a in values() {
        for b in values() {
            let (x, y) = (a.to_bits(), b.to_bits());
            assert!(same(plus(x, y), a + b), "{a:e} + {b:e}");
            assert!(same(minus(x, y), a - b), "{a:e} - {b:e}");
            assert!(same(times(x, y), a * b), "{a:e} * {b:e}");
            assert!(same(divide(x, y), a / b), "{a:e} / {b:e}");
            assert!(same(modulo(x, y), a % b), "{a:e} % {b:e}");
            assert_eq!(equals(x, y), a == b);
            assert_eq!(precedes(x, y), a < b);
        }
    }
}

#[test]
fn conversions_are_those_of_doubles() {
    for a in values() {
        let x = a.to_bits();
        assert!(same(floor(x), a.floor()), "{a:e}");
        assert!(same(negate(x), -a));
        assert!(same(absolute(x), a.abs()));
        assert_eq!(to_i64(x), a as i64);
        assert_eq!(to_usize(x), a as usize);
        assert_eq!(finite(x), a.is_finite());
        assert_eq!(zero(x), a == 0.0);
        assert_eq!(safe_integer(x), a.fract() == 0.0 && a.abs() < 9_007_199_254_740_992.0);
    }
    for n in [0u64, 1, 2, 9007199254740993, u64::MAX, 1 << 63, 12345678901234567890] {
        assert!(same(from_u64(n), n as f64));
        assert!(same(from_i64(n as i64), n as i64 as f64));
    }
}

#[test]
fn decimal_text_is_read_like_std_reads_it() {
    for t in [
        "0", "-0", "1", "+1", "1.", ".5", "-.5e3", "1e5", "1E-5", "1e+308", "1e309", "-1e400",
        "5e-324", "2e-324", "0.1", "123456789012345678901234567890", "9007199254740993", "inf",
        "-Infinity", "NaN", "", "+", "-", ".", "e5", "1e", "1e+", "1x", " 1", "1 ", "0x10", "1_0",
        "infin", "1.2.3", "--1", "0.30000000000000004", "1e-99999999999", "0e99999999999",
    ] {
        match (parse_double(t), t.parse::<f64>()) {
            (Some(bits), Ok(x)) => assert!(same(bits, x), "{t}"),
            (None, Err(_)) => {}
            other => panic!("{t}: {other:?}"),
        }
    }
}

#[test]
fn doubles_are_written_like_others_write_them() {
    for a in values() {
        let x = a.to_bits();
        assert_eq!(display_double(x), format!("{a}"));
        if a.is_finite() {
            let exact = write_exact(x);
            assert_eq!(exact.parse::<f64>().unwrap().to_bits(), x, "{exact}");
            assert_eq!(json_of_double(x), serde_json::to_string(&a).unwrap());
            assert_eq!(parse_double(&json_of_double(x)), Some(x));
        } else {
            assert_eq!(json_of_double(x), "null");
        }
    }
    assert_eq!(write_exact(f64::to_bits(4503599627370496.0)), "4503599627370496");
}

#[test]
fn numbers_become_integers_where_they_are() {
    assert_eq!(json_num(f64::to_bits(3.0)), j("3"));
    assert_eq!(json_num(f64::to_bits(-0.0)), j("0"));
    assert_eq!(json_num(f64::to_bits(-4.0)), j("-4"));
    assert_eq!(json_num(f64::to_bits(0.5)), j("0.5"));
    assert_eq!(json_num(f64::to_bits(9007199254740992.0)), j("9007199254740992.0"));
    assert_eq!(json_num(f64::to_bits(f64::NAN)), Value::Null);
}

#[test]
fn values_are_written_like_others_write_them() {
    for t in [
        "null", "true", "[1,-2,3.5,\"x\"]", "{\"b\":[{}],\"a\":\"q\\\"\\\\\\n\\u0007é\u{1F600}/\"}",
        "18446744073709551615", "1e21", "[]", "\"\\u007f\\u001f\\b\\f\\r\\t\"",
    ] {
        let v: serde_json::Value = serde_json::from_str(t).unwrap();
        assert_eq!(write_json(&convert(&v)), serde_json::to_string(&v).unwrap());
    }
    assert_eq!(to_string(&j("\"plain\"")), "plain");
    assert!(values_same(&j("[0.0,{\"a\":1}]"), &j("[-0.0,{\"a\":1}]")));
    assert!(!values_same(&j("1"), &j("1.0")));
}

#[test]
fn white_space_is_that_of_std() {
    for n in 0..=0x10ffffu32 {
        if let Some(c) = char::from_u32(n) {
            assert_eq!(text::space(c), c.is_whitespace(), "{n:x}");
        }
    }
}

#[test]
fn text_functions_are_those_of_std() {
    let samples = ["", "a", "aa", "aaa", "  x y ", "é\u{3000}", "a,b,,c", "\r\nx\r\n\ny\r", "'q'", "ab\nab"];
    for s in samples {
        assert_eq!(text::trim(s), s.trim());
        assert_eq!(text::trim_start(s), s.trim_start());
        assert_eq!(text::trim_end(s), s.trim_end());
        assert_eq!(text::lines(s), s.lines().collect::<Vec<_>>());
        assert_eq!(text::ascii_lower(s), s.to_ascii_lowercase());
        assert_eq!(text::ascii_upper(s), s.to_ascii_uppercase());
        assert_eq!(text::first_word(s).as_deref(), s.split_whitespace().next());
        assert_eq!(text::trim_matches(s, '\''), s.trim_matches('\''));
        assert_eq!(text::repeat(s, 3), s.repeat(3));
        for p in samples {
            assert_eq!(text::split(s, p), s.split(p).collect::<Vec<_>>());
            assert_eq!(text::contains(s, p), s.contains(p));
            assert_eq!(text::starts_with(s, p), s.starts_with(p));
            assert_eq!(text::ends_with(s, p), s.ends_with(p));
            assert_eq!(text::strip_prefix(s, p).as_deref(), s.strip_prefix(p));
            assert_eq!(text::strip_suffix(s, p).as_deref(), s.strip_suffix(p));
            assert_eq!(text::less(s, p), s < p);
            let cut = text::split_once(s, p);
            assert_eq!(cut.as_ref().map(|(a, b)| (a.as_str(), b.as_str())), s.split_once(p));
            if !p.is_empty() {
                assert_eq!(text::replace(s, p, "<>"), s.replace(p, "<>"));
            }
        }
    }
}

#[test]
fn integers_are_written_and_read() {
    for n in [0u64, 9, 10, 12345, u64::MAX] {
        assert_eq!(text::u64_text(n), n.to_string());
        assert_eq!(text::hex16_text(n), format!("{n:016x}"));
    }
    assert_eq!(text::i64_text(i64::MIN), i64::MIN.to_string());
    assert_eq!(text::u128_text(u128::MAX), u128::MAX.to_string());
    for t in ["0", "+7", "-1", "", "+", "18446744073709551615", "18446744073709551616", "1a", "007"] {
        assert_eq!(text::parse_usize(t), t.parse::<usize>().ok(), "{t}");
    }
}
