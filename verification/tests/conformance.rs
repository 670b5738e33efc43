//! Feature files, scenarios and reports.

use ows_runtime::conformance::{
    classify_step, get_path, parse_feature_str, prepare, runs, scenario_uses_network, skipped_scenario,
    unreadable_feature, values_equal, ConformanceReport, Document, Execution, PropertyAssertion,
    RunError, ScenarioRun, ScenarioStatus, StepKind,
};
use ows_runtime::error::ErrorKind;
use ows_runtime::json::{Number, Object, Value};

/// Reads a value from JSON text.
fn j(text: &str) -> Value {
    convert(&serde_json::from_str(text).unwrap())
}

fn convert(v: &serde_json::Value) -> Value {
    match v {
        serde_json::Value::Null => Value::Null,
        serde_json::Value::Bool(b) => Value::Bool(*b),
        serde_json::Value::Number(n) => Value::Number(if let Some(u) = n.as_u64() {
            Number::PosInt(u)
        } else if let Some(i) = n.as_i64() {
            Number::NegInt(i)
        } else {
            Number::Float(n.as_f64().unwrap().to_bits())
        }),
        serde_json::Value::String(s) => Value::String(s.clone()),
        serde_json::Value::Array(items) => Value::Array(items.iter().map(convert).collect()),
        serde_json::Value::Object(map) => {
            let mut o = Object::new();
            for (k, v) in map {
                o.insert(k.clone(), convert(v));
            }
            Value::Object(o)
        }
    }
}

const FEATURE: &str = r#"
Feature: Set Task
  # a comment
  Scenario: Sets values
    Given a workflow with definition:
    """yaml
    do:
      - a: 1
    """
    When the workflow is executed
    Then the workflow should complete

  Scenario: Second
    Given something
    And more
    Odd line
"#;

#[test]
fn features_are_parsed() {
    let f = parse_feature_str(FEATURE, "set.feature".into()).unwrap();
    assert_eq!(f.name, "Set Task");
    assert_eq!(f.file, "set.feature");
    assert_eq!(f.scenarios.len(), 2);
    let first = &f.scenarios[0];
    assert_eq!(first.name, "Sets values");
    assert_eq!(first.steps.len(), 3);
    assert_eq!(first.steps[0].keyword, "Given");
    assert_eq!(first.steps[0].text, "a workflow with definition:");
    assert_eq!(first.steps[0].doc_string.as_deref(), Some("    do:\n      - a: 1\n"));
    assert_eq!(first.steps[1].keyword, "When");
    assert!(first.steps[1].doc_string.is_none());
    assert_eq!(f.scenarios[1].steps[2].keyword, "Step");
    assert_eq!(f.scenarios[1].steps[2].text, "Odd line");
    assert!(!scenario_uses_network(first));
    let g = parse_feature_str(
        "Scenario: n\nGiven x\n\"\"\"\ncall: http\n\"\"\"\r\nGiven y",
        String::new(),
    )
    .unwrap();
    assert!(scenario_uses_network(&g.scenarios[0]));
    assert!(runs(first, false) && runs(first, true));
    assert!(!runs(&g.scenarios[0], false) && runs(&g.scenarios[0], true));
    assert_eq!(g.scenarios[0].steps.len(), 2);
}

#[test]
fn steps_are_classified() {
    let kind = classify_step;
    assert!(matches!(kind(" a workflow with definition: "), StepKind::Definition));
    assert!(matches!(kind("given the workflow input is:"), StepKind::Input));
    assert!(matches!(kind("the workflow is executed"), StepKind::Execute));
    assert!(matches!(kind("the workflow should complete"), StepKind::Completes { output: false }));
    assert!(matches!(
        kind("the workflow should complete with output:"),
        StepKind::Completes { output: true }
    ));
    assert!(matches!(kind("the workflow should fault with error:"), StepKind::Faults { error: true }));
    assert!(matches!(kind("the workflow should cancel"), StepKind::Cancels));
    let StepKind::Properties(p) = kind("the workflow output should have properties 'a.b', \"c\",")
    else {
        panic!()
    };
    assert_eq!(p, vec!["a.b", "c"]);
    let StepKind::Property(path, what) =
        kind("the workflow output should have a 'a.b' property containing 3 items")
    else {
        panic!()
    };
    assert_eq!((path.as_str(), what), ("a.b", PropertyAssertion::ItemCount(3)));
    assert!(matches!(
        kind("the workflow output should have a 'x' property with value:"),
        StepKind::Property(_, PropertyAssertion::WithValue)
    ));
    assert!(matches!(kind("the workflow output should have a x"), StepKind::Ignored));
    assert!(matches!(kind("t should run first"), StepKind::RunsFirst(t) if t == "t"));
    assert!(matches!(kind("t should run last"), StepKind::RunsLast(t) if t == "t"));
    assert!(
        matches!(kind("'a' should run before 'b'"), StepKind::RunsBefore(a, b) if a == "a" && b == "b")
    );
    assert!(
        matches!(kind("a should run after b"), StepKind::RunsAfter(a, b) if a == "a" && b == "b")
    );
    assert!(matches!(kind("a should complete"), StepKind::TaskCompletes(_)));
    assert!(matches!(kind("a should fault"), StepKind::TaskFaults(_)));
    assert!(matches!(kind("a should cancel"), StepKind::TaskCancels(_)));
    assert!(matches!(kind("anything else"), StepKind::Ignored));
}

fn ran(output: &str, order: &[&str]) -> Execution {
    Execution::Ran {
        result: Ok(j(output)),
        order: order.iter().map(|s| s.to_string()).collect(),
    }
}

fn faulted(kind: ErrorKind) -> Execution {
    Execution::Ran {
        result: Err(RunError { kind, text: "boom".into(), problem: j("{\"status\": 500}") }),
        order: vec!["a".into()],
    }
}

/// Runs the steps after an execution and returns the message of the verdict.
fn verdict(execution: Execution, steps: &[(&str, Document)]) -> Option<String> {
    let mut run = ScenarioRun::new();
    run.step(&StepKind::Definition, Some(Ok(j("{}"))), None);
    assert!(run.wants_execution(&StepKind::Execute));
    run.step(&StepKind::Execute, None, Some(execution));
    for (text, doc) in steps {
        let doc = doc.as_ref().map(|d| match d {
            Ok(v) => Ok(v.clone()),
            Err(e) => Err(e.clone()),
        });
        run.step(&classify_step(text), doc, None);
    }
    let result = run.finish("f", "s");
    assert_eq!(result.status == ScenarioStatus::Pass, result.message.is_none());
    result.message
}

#[test]
fn scenarios_pass_and_fail() {
    let out = r#"{"a": {"b": [1, 2]}, "c": 3}"#;
    assert_eq!(
        verdict(
            ran(out, &["x", "y"]),
            &[
                ("the workflow should complete with output:", Some(Ok(j(out)))),
                ("the workflow output should have properties 'a.b', 'c'", None),
                ("the workflow output should have a 'a.b' property containing 2 items", None),
                ("the workflow output should have a 'c' property with value:", Some(Ok(j("3.0")))),
                ("x should run first", None),
                ("y should run last", None),
                ("x should run before y", None),
                ("y should run after x", None),
                ("x should complete", None),
                ("y should fault", None),
                ("x should cancel", None),
                ("note", None),
            ]
        ),
        None
    );
    let fail = |text: &str, doc: Document| verdict(ran(out, &["x", "y"]), &[(text, doc)]).unwrap();
    assert_eq!(
        fail("the workflow should complete with output:", Some(Ok(j("1")))),
        "output mismatch: expected 1, got {\"a\":{\"b\":[1,2]},\"c\":3}"
    );
    assert_eq!(
        fail("the workflow should fault", None),
        "expected fault, got output {\"a\":{\"b\":[1,2]},\"c\":3}"
    );
    assert_eq!(fail("the workflow should cancel", None), "expected cancellation, got completion");
    assert_eq!(
        fail("the workflow output should have properties q, a.z", None),
        "missing property `q`; missing property `a.z`"
    );
    assert_eq!(
        fail("the workflow output should have a 'a.b' property containing 3 items", None),
        "property `a.b` has 2 items, expected 3"
    );
    assert_eq!(
        fail("the workflow output should have a 'c' property containing 1 items", None),
        "property `c` is not an array"
    );
    assert_eq!(
        fail("the workflow output should have a 'c' property with value:", None),
        "property `c` mismatch: expected null, got 3"
    );
    assert_eq!(
        fail("y should run first", None),
        "expected `y` to run first, order was [\"x\", \"y\"]"
    );
    assert_eq!(
        fail("x should run last", None),
        "expected `x` to run last, order was [\"x\", \"y\"]"
    );
    assert_eq!(
        fail("y should run before x", None),
        "expected `y` to run before `x`, but 1 >= 0"
    );
    assert_eq!(
        fail("x should run after y", None),
        "expected `x` to run after `y`, but 0 <= 1"
    );
    assert_eq!(fail("x should run after q", None), "task `q` did not run");
    assert_eq!(fail("q should run before x", None), "task `q` did not run");
    assert_eq!(fail("q should complete", None), "task `q` did not complete");
    assert_eq!(fail("x should fault", None), "expected task `x` to be the faulting task");
    assert_eq!(fail("q should cancel", None), "task `q` did not run");
}

#[test]
fn executions_can_fail() {
    assert_eq!(
        verdict(faulted(ErrorKind::Runtime), &[
            ("the workflow should fault with error:", Some(Ok(j("{\"status\": 500}")))),
        ]),
        None
    );
    assert_eq!(verdict(faulted(ErrorKind::Cancelled), &[("the workflow should cancel", None)]), None);
    assert_eq!(
        verdict(faulted(ErrorKind::Runtime), &[("the workflow should cancel", None)]).unwrap(),
        "expected cancellation, got: boom"
    );
    assert_eq!(
        verdict(faulted(ErrorKind::Runtime), &[("the workflow should complete", None)]).unwrap(),
        "expected completion, got fault: boom"
    );
    assert_eq!(
        verdict(Execution::Undecodable("m".into()), &[]).unwrap(),
        "failed to deserialize definition: m"
    );
    assert_eq!(
        verdict(Execution::Invalid(vec!["a".into(), "b".into()]), &[]).unwrap(),
        "definition invalid: [\"a\", \"b\"]"
    );
    assert_eq!(verdict(Execution::Uncompilable("m".into()), &[]).unwrap(), "compile failed: m");
    let mut run = ScenarioRun::new();
    run.step(&StepKind::Completes { output: false }, None, None);
    run.step(&StepKind::Execute, None, None);
    assert_eq!(
        run.finish("f", "s").message.unwrap(),
        "workflow was not executed; no workflow definition"
    );
    let mut run = ScenarioRun::new();
    run.step(&StepKind::Definition, Some(Err("eof".into())), None);
    run.step(&StepKind::Input, Some(Ok(j("5"))), None);
    assert_eq!(run.input(), &j("5"));
    assert_eq!(run.definition(), Some(&Value::Null));
    assert_eq!(
        run.finish("f", "s").message.unwrap(),
        "failed to parse workflow definition: eof"
    );
}

#[test]
fn reports_count_their_results() {
    let mut report = ConformanceReport::default();
    report.record(skipped_scenario("f", "a"));
    report.record(unreadable_feature("file", "cause"));
    report.record(ScenarioRun::new().finish("f", "b"));
    assert_eq!((report.passes, report.failures, report.skips), (1, 1, 1));
    assert_eq!(report.total(), 3);
    assert!(report.has_failures());
    assert_eq!(report.scenarios[1].name, "<parse error>");
}

#[test]
fn paths_and_equality() {
    let v = j(r#"{"a": {"b": {"c": 1}}, "": 2}"#);
    assert_eq!(get_path(&v, "a.b.c"), Some(&j("1")));
    assert_eq!(get_path(&v, ""), Some(&j("2")));
    assert_eq!(get_path(&v, "a.x"), None);
    assert_eq!(get_path(&j("[1]"), "0"), None);
    assert!(values_equal(&j("{\"a\":[1,2]}"), &j("{\"a\":[1.0,2]}")));
    assert!(!values_equal(&j("{\"a\":1}"), &j("{\"b\":1}")));
}

#[test]
fn steps_are_taken_with_their_documents() {
    let text = "Scenario: s\nGiven a workflow with definition:\n\"\"\"\ndo: []\n\"\"\"\n\
        And given the workflow input is:\n\"\"\"\na: 1\n\"\"\"\n\
        When the workflow is executed\n\
        Then the workflow should complete with output:\n\"\"\"\n[1, x]\n\"\"\"\n";
    let f = parse_feature_str(text, String::new()).unwrap();
    let steps = &f.scenarios[0].steps;
    let mut run = ScenarioRun::new();
    assert!(!run.wants(&steps[2]));
    run.take(&steps[0], None);
    run.take(&steps[1], None);
    assert_eq!(run.definition(), Some(&j("{\"do\":[]}")));
    assert_eq!(run.input(), &j("{\"a\":1}"));
    assert!(run.wants(&steps[2]) && !run.wants(&steps[3]));
    let result = Ok(j("[1,\"x\"]"));
    run.take(&steps[2], Some(Execution::Ran { result, order: vec![] }));
    run.take(&steps[3], None);
    assert_eq!(run.finish("f", "s").status, ScenarioStatus::Pass);
}

#[test]
fn unreadable_documents_fail() {
    let text = "Scenario: s\nGiven a workflow with definition:\n\"\"\"\ndo: [\n\"\"\"\n";
    let f = parse_feature_str(text, String::new()).unwrap();
    let mut run = ScenarioRun::new();
    run.take(&f.scenarios[0].steps[0], None);
    let r = run.finish("f", "s");
    assert_eq!(r.status, ScenarioStatus::Fail);
    assert!(r.message.unwrap().starts_with("failed to parse workflow definition: "));
}

#[test]
fn definitions_are_prepared() {
    let text = r#"{"document":{"dsl":"1.0.0","namespace":"n","name":"w","version":"1"},
        "do":[{"a":{"set":{"x":1},"then":"THEN"}}]}"#;
    let with = |flow: &str| prepare(&j(&text.replace("THEN", flow)));
    assert_eq!(with("end").unwrap().name, "w");
    let Err(Execution::Invalid(codes)) = with("nowhere") else { panic!() };
    assert_eq!(codes, vec!["flow.unknown-target"]);
    let Err(Execution::Undecodable(m)) = prepare(&Value::Null) else { panic!() };
    assert!(m.contains("invalid type: null"), "{m}");
}
