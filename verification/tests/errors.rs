//! Errors of the expression language.

use ows_runtime::expressions::engine::engine_error;
use ows_runtime::expressions::error::ExpressionError;
use ows_runtime::expressions::parser::parse;

#[test]
fn constructors() {
    let p = ExpressionError::parse(3, "bad");
    assert!(matches!(p, ExpressionError::Parse { pos: 3, .. }));
    let e = ExpressionError::eval("boom");
    assert!(matches!(e, ExpressionError::Eval { .. }));
    let t = ExpressionError::type_error("type");
    assert!(matches!(t, ExpressionError::TypeError { .. }));
    let u = ExpressionError::UnsupportedFunction { name: "f".into() };
    assert!(matches!(u, ExpressionError::UnsupportedFunction { .. }));
}

#[test]
fn display_and_conversion() {
    let e = ExpressionError::parse(0, "bad");
    assert!(e.to_string().contains("parse error"));
    let core = engine_error(&e);
    assert!(!core.message.is_empty());
}

#[test]
fn texts_of_errors() {
    assert_eq!(ExpressionError::lex(2, "x").to_string(), "lex error at byte 2: x");
    assert_eq!(ExpressionError::parse(10, "y").to_string(), "parse error at byte 10: y");
    assert_eq!(ExpressionError::eval("z").to_string(), "eval error: z");
    assert_eq!(ExpressionError::type_error("t").to_string(), "type error: t");
    let u = ExpressionError::UnsupportedFunction { name: "f".into() };
    assert_eq!(u.to_string(), "unsupported function `f`");
}

#[test]
fn parse_errors_name_the_token() {
    let text = |src: &str| parse(src).unwrap_err().to_string();
    assert_eq!(text(""), "parse error at byte 0: unexpected end of expression");
    assert_eq!(text("1 2"), "parse error at byte 1: unexpected `2`");
    assert_eq!(text("1 2.5"), "parse error at byte 1: unexpected `2.5`");
    assert_eq!(text("(1"), "parse error at byte 2: expected `)`, found `end of input`");
    assert_eq!(text("[1;"), "parse error at byte 2: expected `]`, found `;`");
    assert_eq!(text("{a 1}"), "parse error at byte 2: expected `:`, found `1`");
    assert_eq!(text("{1: 2}"), "parse error at byte 1: expected object key, found `1`");
    assert_eq!(text("if 1 \"x\""), "parse error at byte 2: expected `then`, found `\"x\"`");
    assert_eq!(text("1 \"a\\(.b)\""), "parse error at byte 1: unexpected `\"a\"`");
    assert_eq!(text("1 \"\\(.b)\""), "parse error at byte 1: unexpected `\\\\(.b)`");
    assert_eq!(text("1 $x"), "parse error at byte 1: unexpected `$x`");
    assert_eq!(text("if 1 then 2"), "parse error at byte 4: expected `end`, found `end of input`");
    assert_eq!(text("foo"), "parse error at byte 0: unknown identifier `foo`");
    assert_eq!(text("1 + then"), "parse error at byte 2: unknown identifier `then`");
    assert!(parse("foo(1)").is_ok() && parse("length").is_ok() && parse("range").is_ok());
    assert_eq!(text("é`"), "lex error at byte 1: unexpected character ```");
}

#[test]
fn lex_errors_name_the_place() {
    let text = |src: &str| parse(src).unwrap_err().to_string();
    assert_eq!(text("1e"), "lex error at byte 0: invalid number `1e`");
    assert_eq!(text("\"ab"), "lex error at byte 3: unterminated string");
    assert_eq!(text("\"a\\"), "lex error at byte 3: unterminated escape");
    assert_eq!(text("\"\\(a"), "lex error at byte 4: unterminated interpolation");
    assert_eq!(text("\"\\u12"), "lex error at byte 5: unterminated string");
    assert_eq!(text("\"\\u12\""), "lex error at byte 6: invalid unicode escape");
}
