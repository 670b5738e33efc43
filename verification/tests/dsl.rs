//! Definitions: normal form, identities and validation.

use ows_runtime::definition::{
    from_bytes, from_file_bytes, from_json, from_yaml, load, normalize_definition,
    read_file_bytes, to_json, to_yaml, workflow_id, DefinitionError, WorkflowId,
};
use ows_runtime::document::{read_json, read_yaml};
use ows_runtime::json::{Number, Object, Value};
use ows_runtime::model::{encode_workflow, model_definition, read_definition};
use ows_runtime::validate::{
    validate, Definition, SwitchCase, Task, TaskBody, TaskEntry, TaskList, ValidationIssue,
};
use ows_runtime::value::write_json;

/// Reads a value from JSON text.
fn j(text: &str) -> Value {
    convert(&serde_json::from_str(text).unwrap())
}

fn convert(v: &serde_json::Value) -> Value {
    match v {
        serde_json::Value::Null => Value::Null,
        serde_json::Value::Bool(b) => Value::Bool(*b),
        serde_json::Value::Number(n) => Value::Number(if let Some(u) = n.as_u64() {
            Number::PosInt(u)
        } else if let Some(i) = n.as_i64() {
            Number::NegInt(i)
        } else {
            Number::Float(n.as_f64().unwrap().to_bits())
        }),
        serde_json::Value::String(s) => Value::String(s.clone()),
        serde_json::Value::Array(items) => Value::Array(items.iter().map(convert).collect()),
        serde_json::Value::Object(map) => {
            let mut o = Object::new();
            for (k, v) in map {
                o.insert(k.clone(), convert(v));
            }
            Value::Object(o)
        }
    }
}

#[test]
fn normalize_injects_compete() {
    let parsed: serde_json::Value = serde_yaml::from_str(
        r#"
document: { dsl: '1.0.3', namespace: t, name: w, version: '0.1.0' }
do:
  - f:
      fork:
        branches:
          - a: { set: { x: 1 } }
"#,
    )
    .unwrap();
    let mut v = convert(&parsed);
    normalize_definition(&mut v);
    let Some(Value::Array(tasks)) = v.get("do") else {
        panic!()
    };
    let fork = tasks[0].get("f").unwrap().get("fork").unwrap();
    assert_eq!(fork.get("compete").unwrap(), &Value::Bool(false));
}

#[test]
fn normal_form_is_stable_and_reaches_inside() {
    let mut v = j(r#"{"do":[{"loop":{"for":{"in":[1,{"a":2}],"each":"x"},"do":[
        {"f":{"fork":{"branches":[{"b":{"fork":{"compete":true}}}]}}}]}},
        {"t":{"try":[{"g":{"fork":{}}}],"catch":{"do":[{"h":{"fork":{}}}]}}}],"fork":7}"#);
    normalize_definition(&mut v);
    let once = write_json(&v);
    assert_eq!(
        once,
        "{\"do\":[{\"loop\":{\"do\":[{\"f\":{\"fork\":{\"branches\":[{\"b\":{\"fork\":{\"compete\":true}}}],\"compete\":false}}}],\"for\":{\"each\":\"x\",\"in\":\"[1,{\\\"a\\\":2}]\"}}},{\"t\":{\"catch\":{\"do\":[{\"h\":{\"fork\":{\"compete\":false}}}]},\"try\":[{\"g\":{\"fork\":{\"compete\":false}}}]}}],\"fork\":7}"
    );
    normalize_definition(&mut v);
    assert_eq!(write_json(&v), once);
}

#[test]
fn identities() {
    let id = WorkflowId {
        namespace: "ns".into(),
        name: "wf".into(),
        version: "0.1.0".into(),
    };
    assert_eq!(id.qualified_name(), "wf.ns");
    assert_eq!(id.key(), "ns/wf/0.1.0");
}

#[test]
fn definition_errors_are_classified() {
    let p = DefinitionError::Parse("x".into());
    assert!(p.is_parse() && !p.is_schema() && !p.is_semantic());
    assert_eq!(p.to_string(), "parse error: x");
    assert!(DefinitionError::Schema("x".into()).is_schema());
    assert!(DefinitionError::Semantic("x".into()).is_semantic());
    assert_eq!(DefinitionError::Io("x".into()).to_string(), "io error: x");
}

fn simple(flow: Option<&str>) -> Task {
    Task { flow: flow.map(str::to_string), body: TaskBody::Simple }
}

fn list(tasks: Vec<(&str, Task)>) -> TaskList {
    TaskList {
        entries: tasks
            .into_iter()
            .map(|(name, task)| Some(TaskEntry { name: name.into(), task }))
            .collect(),
    }
}

fn definition(tasks: TaskList) -> Definition {
    Definition {
        dsl: "1.0.3".into(),
        namespace: "test".into(),
        name: "roundtrip".into(),
        version: "0.1.0".into(),
        tasks,
    }
}

fn codes(def: &Definition) -> Vec<String> {
    validate(def).issues.into_iter().map(|i| i.code).collect()
}

#[test]
fn valid_definitions_have_no_issues() {
    let def = definition(list(vec![("stepOne", simple(None)), ("stepTwo", simple(Some("stepOne")))]));
    assert!(validate(&def).is_valid());
}

#[test]
fn documents_are_checked() {
    let mut def = definition(TaskList { entries: vec![] });
    def.dsl = "2.0".into();
    def.name = String::new();
    def.version = String::new();
    assert_eq!(
        codes(&def),
        vec![
            "document.name.required",
            "document.version.required",
            "document.dsl.unsupported",
            "do.empty"
        ]
    );
    def.dsl = String::new();
    assert!(codes(&def).contains(&"document.dsl.required".to_string()));
}

#[test]
fn flows_lead_somewhere() {
    let def = definition(list(vec![
        ("a", simple(Some("b"))),
        ("b", simple(Some("end"))),
        ("c", simple(Some("nowhere"))),
    ]));
    let report = validate(&def);
    assert_eq!(report.issues.len(), 1);
    assert_eq!(report.issues[0].code, "flow.unknown-target");
    assert_eq!(
        report.issues[0].message,
        "flow directive `nowhere` does not match any task in scope"
    );
    assert_eq!(report.issues[0].instance.as_deref(), Some("/do/c/then"));
}

#[test]
fn composite_tasks_are_entered() {
    let bad = || list(vec![("x", simple(Some("gone")))]);
    let body = |body| Task { flow: None, body };
    let def = definition(list(vec![
        ("d", body(TaskBody::Do(bad()))),
        ("l", body(TaskBody::For { collection: String::new(), tasks: bad() })),
        ("f", body(TaskBody::Fork(bad()))),
        ("t", body(TaskBody::Try { tasks: bad(), handler: Some(bad()) })),
    ]));
    let at: Vec<String> =
        validate(&def).issues.into_iter().map(|i| i.instance.unwrap()).collect();
    assert_eq!(
        at,
        vec![
            "/do/d/do/x/then",
            "/do/l/for/in",
            "/do/l/do/x/then",
            "/do/f/fork/branches/x/then",
            "/do/t/try/x/then",
            "/do/t/catch/do/x/then"
        ]
    );
}

#[test]
fn switches_are_checked() {
    let case = |name: &str, when: Option<&str>, flow: Option<&str>| {
        Some(SwitchCase {
            name: name.into(),
            when: when.map(str::to_string),
            flow: flow.map(str::to_string),
        })
    };
    let switch = |cases| {
        definition(list(vec![("s", Task { flow: None, body: TaskBody::Switch(cases) })]))
    };
    assert_eq!(codes(&switch(vec![])), vec!["switch.empty"]);
    assert!(validate(&switch(vec![case("a", Some("."), Some("end")), case("b", None, Some("exit"))]))
        .is_valid());
    assert_eq!(
        codes(&switch(vec![case("a", None, None), None, case("b", None, Some("exit"))])),
        vec!["switch.then.required", "switch.multiple-default"]
    );
    let issue = ValidationIssue::new("c", "m").at("/p");
    assert_eq!(issue.instance.as_deref(), Some("/p"));
}

#[test]
fn identity_of_a_definition() {
    let id = workflow_id(&definition(TaskList { entries: vec![] }));
    assert_eq!(id.qualified_name(), "roundtrip.test");
    assert_eq!(id.key(), "test/roundtrip/0.1.0");
}

#[test]
fn normal_form_leaves_the_rest() {
    let text = concat_text();
    let mut v = j(&text);
    normalize_definition(&mut v);
    assert_eq!(write_json(&v), text);
}

fn concat_text() -> String {
    let fork = r#"{"branches":[{"b":{"set":{"fork":{}}}}],"compete":true,"x":1}"#;
    let each = r#"{"at":"i","each":"x","in":".items"}"#;
    format!(
        r#"{{"a":{{"for":{{"in":[1]}}}},"do":[{{"t":{{"for":{each},"fork":{fork},"set":[1]}}}},5]}}"#
    )
}

const WF: &str = r#"
document: { dsl: '1.0.3', namespace: ns, name: wf, version: '0.1.0' }
do:
  - a: { set: { x: 1 } }
"#;

const WORKFLOW: &str = r#"
document:
  dsl: '1.0.3'
  namespace: test
  name: roundtrip
  version: '0.1.0'
use:
  errors:
    myError:
      type: https://example.com/errors/thing
      title: Thing Failed
      status: 500
  retries:
    myRetry:
      limit:
        attempt:
          count: 3
do:
  - stepOne:
      set:
        a: 1
        b: '${ .input.x }'
  - stepTwo:
      call: http
      with:
        method: get
        endpoint: https://example.com
"#;

#[test]
fn parse_yaml_and_json_and_identity() {
    let def = from_yaml(WF).unwrap();
    assert_eq!(workflow_id(&def).qualified_name(), "wf.ns");
    assert_eq!(workflow_id(&def).key(), "ns/wf/0.1.0");
    let json = to_json(&load(read_yaml(WF)).unwrap()).unwrap();
    let from_json = from_json(&json).unwrap();
    assert_eq!(from_json.name, "wf");
}

#[test]
fn to_yaml_roundtrips() {
    let def = load(read_yaml(WF)).unwrap();
    let yaml = to_yaml(&def).unwrap();
    let again = from_yaml(&yaml).unwrap();
    assert_eq!(again.tasks.entries.len(), 1);
}

#[test]
fn parse_errors_are_classified() {
    assert!(from_yaml("do: [").unwrap_err().is_parse());
    assert!(from_json("{").unwrap_err().is_parse());
}

#[test]
fn from_bytes_parses() {
    let def = from_bytes(WF.as_bytes()).unwrap();
    assert_eq!(def.name, "wf");
}

#[test]
fn yaml_to_json_to_yaml_roundtrip() {
    let def = load(read_yaml(WORKFLOW)).expect("parse yaml");
    let report = validate(&model_definition(&def));
    assert!(report.is_valid(), "validation: {:?}", report.issues);

    let json = to_json(&def).expect("to json");
    let from_json_def = load(read_json(&json)).expect("parse json");

    let yaml_again = to_yaml(&from_json_def).expect("to yaml");
    let from_yaml_again = from_yaml(&yaml_again).expect("parse yaml again");

    // The re-parsed definition should be semantically equal.
    assert_eq!(from_json_def.document.name, def.document.name);
    assert_eq!(from_yaml_again.tasks.entries.len(), def.do_.entries.len());
    assert_eq!(from_json_def, def);
}

#[test]
fn parse_and_validate_valid_definitions() {
    let def = from_yaml(WORKFLOW).unwrap();
    let report = validate(&def);
    assert!(report.is_valid());
}

#[test]
fn malformed_yaml_is_parse_error() {
    let err = from_yaml("do: [").unwrap_err();
    assert!(err.is_parse());
}

#[test]
fn unknown_task_is_parse_error() {
    // A task with no recognized type keyword fails deserialization.
    let err = from_yaml(
        r#"
document:
  dsl: '1.0.3'
  namespace: t
  name: w
  version: '0.1.0'
do:
  - weird:
      frobnicate: 42
"#,
    )
    .unwrap_err();
    assert!(err.is_parse());
}

#[test]
fn definitions_are_read_from_text() {
    let text = r#"
document: { dsl: '1.0.3', name: w, version: '1' }
do:
  - s:
      switch:
        - one: { when: .x, then: t }
        - other: { then: end }
  - t:
      try:
        - c: { call: http, with: {}, then: gone }
      catch:
        do:
          - h: { set: { y: 1 } }
      then: exit
  - f:
      fork:
        branches:
          - b: { set: { z: 1 } }
  - d:
      do: []
"#;
    let def = from_yaml(text).unwrap();
    assert_eq!((def.namespace.as_str(), def.dsl.as_str()), ("default", "1.0.3"));
    let task = |i: usize| def.tasks.entries[i].as_ref().unwrap();
    assert_eq!(task(0).name, "s");
    let TaskBody::Switch(cases) = &task(0).task.body else { panic!() };
    let case = cases[0].as_ref().unwrap();
    assert_eq!((case.name.as_str(), case.when.as_deref()), ("one", Some(".x")));
    assert_eq!(case.flow.as_deref(), Some("t"));
    assert!(cases[1].as_ref().unwrap().when.is_none());
    assert_eq!(task(1).task.flow.as_deref(), Some("exit"));
    let TaskBody::Try { tasks, handler } = &task(1).task.body else { panic!() };
    assert_eq!(tasks.entries[0].as_ref().unwrap().task.flow.as_deref(), Some("gone"));
    assert_eq!(handler.as_ref().unwrap().entries[0].as_ref().unwrap().name, "h");
    let TaskBody::Fork(branches) = &task(2).task.body else { panic!() };
    assert!(matches!(branches.entries[0].as_ref().unwrap().task.body, TaskBody::Simple));
    assert!(matches!(&task(3).task.body, TaskBody::Do(t) if t.entries.is_empty()));
    let report = validate(&def);
    assert_eq!(report.issues.len(), 1);
    assert_eq!(report.issues[0].instance.as_deref(), Some("/do/t/try/c/then"));
    assert!(from_yaml("do: []").unwrap_err().to_string().contains("missing field `document`"));
}

#[test]
fn loops_and_empty_entries_are_read_from_values() {
    let v = j(r#"{"do":[{"l":{"for":{"in":".x"},"do":[{}]}},{},7,{"b":{"set":1},"a":{"wait":1}}]}"#);
    let def = read_definition(&v);
    let entries = &def.tasks.entries;
    let TaskBody::For { collection, tasks } = &entries[0].as_ref().unwrap().task.body else {
        panic!()
    };
    assert_eq!(collection, ".x");
    assert!(tasks.entries[0].is_none());
    assert!(entries[1].is_none() && entries[2].is_none());
    assert_eq!(entries[3].as_ref().unwrap().name, "a");
    assert_eq!(def.name, "");
}

#[test]
fn files_are_read_by_their_extension() {
    let yaml = WF.as_bytes();
    assert_eq!(from_file_bytes(yaml, Some("yaml")).unwrap().name, "wf");
    assert_eq!(from_file_bytes(yaml, None).unwrap().name, "wf");
    assert!(from_file_bytes(yaml, Some("json")).unwrap_err().is_parse());
    let json = to_json(&load(read_yaml(WF)).unwrap()).unwrap();
    assert_eq!(from_file_bytes(json.as_bytes(), Some("json")).unwrap().name, "wf");
    assert_eq!(read_file_bytes(b"a: 1", None), read_json("{\"a\": 1}"));
    let e = from_bytes(&[b'a', 0xff]).unwrap_err().to_string();
    assert!(e.starts_with("parse error: invalid UTF-8: "), "{e}");
    let e = from_file_bytes(&[0xc0, 0x80], None).unwrap_err();
    assert!(matches!(e, DefinitionError::Parse(m) if m.starts_with("invalid UTF-8: ")));
    // JSON may hold tabs where YAML may not.
    let tabs = json.replace("  ", "\t");
    assert_eq!(from_bytes(tabs.as_bytes()).unwrap().name, "wf");
}

const EVERY_TASK: &str = r#"
document: { dsl: '1.0.3', namespace: test, name: all, version: '0.1.0', tags: { b: x, a: y } }
input: { from: null, schema: { document: { type: object } } }
timeout: { after: [1, 2, 3, 4, 5] }
schedule: { every: { minutes: 5 }, on: { any: [ { with: { type: t } } ], until: '${ .stop }' } }
evaluate: { mode: strict }
use:
  authentications:
    auth: { oauth2: { endpoints: {}, request: {}, scopes: [s] } }
  catalogs: { c: { endpoint: { uri: 'https://example.com' } } }
  extensions: { e: { extend: all, before: { t: { set: { a: 1 } } } } }
  functions: { f: { call: http, for: { in: [1] }, do: 7 } }
  retries: { r: { delay: { seconds: 1 }, backoff: { exponential: {} }, limit: {} } }
metadata: { k: [1, -2, null, true] }
do:
  - call: { call: http, with: { method: get }, await: false, if: '${ .x }', then: null }
  - nested: { do: [ { inner: { set: {} } } ], timeout: { after: PT1S } }
  - emit: { emit: { event: { with: { type: t } } }, export: { as: '${ . }' } }
  - loop: { for: { emit: x, each: x, in: [1, 2] }, while: '${ . }', do: [ { a: { set: {} } } ] }
  - fork: { fork: { branches: [ { one: { set: {} }, two: { fork: { branches: [] } } } ] } }
  - listen: { listen: { to: { one: { correlate: { k: { from: '.a' } } } } }, foreach: { item: i } }
  - raise: { raise: { error: { type: t, title: t, status: '${ .s }' } } }
  - refer: { raise: { error: known }, output: {} }
  - container: { run: { container: { image: i, ports: {}, environment: { A: b } } } }
  - script: { run: { script: { language: js, source: { endpoint: 'https://example.com' } } } }
  - shell: { run: { shell: { command: ls, arguments: [a] }, await: true } }
  - workflow: { run: { workflow: { namespace: n, name: n, version: v, input: null } } }
  - switch: { switch: [ { c: { when: '.a', then: end } }, { d: {} }, {} ] }
  - try:
      try: [ { a: { set: { x: 1 } } } ]
      catch: { errors: { with: { status: 404 } }, retry: r, do: [ { f: { fork: { branches: [] } } } ] }
  - wait: { duration: { seconds: 1 }, input: { from: '.a' } }
  - pause: { duration: PT1S, metadata: { a: null } }
"#;

#[test]
fn written_definitions_are_read_back() {
    let def = load(read_yaml(EVERY_TASK)).unwrap();
    let value = encode_workflow(&def);
    let mut normal = encode_workflow(&def);
    normalize_definition(&mut normal);
    assert_eq!(write_json(&normal), write_json(&value));
    let json = to_json(&def).unwrap();
    let again = load(read_json(&json)).unwrap();
    assert_eq!(write_json(&encode_workflow(&again)), write_json(&value));
    assert!(again == def);
    let yaml = to_yaml(&def).unwrap();
    assert!(load(read_yaml(&yaml)).unwrap() == def);
    assert_eq!(
        format!("{:?}", from_json(&json).unwrap()),
        format!("{:?}", from_yaml(EVERY_TASK).unwrap())
    );
}
