//! Lifecycle events.

use ows_runtime::json::{Number, Object, Value};
use ows_runtime::lifecycle::{
    LifecycleEmitter, WorkflowRef, TASK_COMPLETED, TASK_FAULTED, TASK_RETRIED, TASK_STARTED,
    WORKFLOW_CANCELLED, WORKFLOW_COMPLETED, WORKFLOW_FAULTED, WORKFLOW_STARTED,
    WORKFLOW_STATUS_CHANGED,
};

/// Reads a value from JSON text.
fn j(text: &str) -> Value {
    convert(&serde_json::from_str(text).unwrap())
}

fn convert(v: &serde_json::Value) -> Value {
    match v {
        serde_json::Value::Null => Value::Null,
        serde_json::Value::Bool(b) => Value::Bool(*b),
        serde_json::Value::Number(n) => Value::Number(if let Some(u) = n.as_u64() {
            Number::PosInt(u)
        } else if let Some(i) = n.as_i64() {
            Number::NegInt(i)
        } else {
            Number::Float(n.as_f64().unwrap().to_bits())
        }),
        serde_json::Value::String(s) => Value::String(s.clone()),
        serde_json::Value::Array(items) => Value::Array(items.iter().map(convert).collect()),
        serde_json::Value::Object(map) => {
            let mut o = Object::new();
            for (k, v) in map {
                o.insert(k.clone(), convert(v));
            }
            Value::Object(o)
        }
    }
}

fn wf() -> WorkflowRef {
    WorkflowRef {
        namespace: "ns".into(),
        name: "wf".into(),
        version: "1.0.0".into(),
    }
}

#[test]
fn workflow_started_event() {
    let em = LifecycleEmitter::new();
    let e = em.workflow_started(&wf(), "exec", "2024-01-01T00:00:00Z");
    assert_eq!(e.type_, WORKFLOW_STARTED);
    assert_eq!(e.source, "/ns/wf/1.0.0");
    assert_eq!(e.id, "exec.started");
    assert_eq!(e.time.as_deref(), Some("2024-01-01T00:00:00Z"));
    assert_eq!(
        e.data.unwrap(),
        j(r#"{"name":"wf-1.0.0.ns","definition":{"name":"wf","namespace":"ns","version":"1.0.0"},
            "startedAt":"2024-01-01T00:00:00Z"}"#)
    );
}

#[test]
fn workflow_completed_event() {
    let e = LifecycleEmitter::new().workflow_completed(&wf(), "exec", "2024-01-01T00:00:00Z");
    assert_eq!(e.type_, WORKFLOW_COMPLETED);
    assert_eq!(e.id, "exec.completed");
    assert_eq!(
        e.data.unwrap(),
        j(r#"{"name":"wf-1.0.0.ns","completedAt":"2024-01-01T00:00:00Z"}"#)
    );
}

#[test]
fn workflow_faulted_event() {
    let error = j(r#"{"type":"x"}"#);
    let e =
        LifecycleEmitter::new().workflow_faulted(&wf(), "exec", "2024-01-01T00:00:00Z", &error);
    assert_eq!(e.type_, WORKFLOW_FAULTED);
    assert_eq!(
        e.data.unwrap(),
        j(r#"{"name":"wf-1.0.0.ns","faultedAt":"2024-01-01T00:00:00Z","error":{"type":"x"}}"#)
    );
}

#[test]
fn workflow_cancelled_and_status_changed() {
    let em = LifecycleEmitter::new();
    let e = em.workflow_cancelled(&wf(), "exec", "t");
    assert_eq!(e.type_, WORKFLOW_CANCELLED);
    assert_eq!(e.data.unwrap(), j(r#"{"name":"wf-1.0.0.ns","cancelledAt":"t"}"#));
    let e = em.workflow_status_changed(&wf(), "exec", "running", "completed", "t");
    assert_eq!(e.type_, WORKFLOW_STATUS_CHANGED);
    assert_eq!(e.id, "exec.status.completed");
    assert_eq!(
        e.data.unwrap(),
        j(r#"{"name":"wf-1.0.0.ns","from":"running","to":"completed"}"#)
    );
}

#[test]
fn task_lifecycle_events() {
    let em = LifecycleEmitter::new();
    let started = em.task_started(&wf(), "exec", "t1", "task1", "t");
    assert_eq!(started.type_, TASK_STARTED);
    assert_eq!(started.id, "exec.t1.started");
    assert_eq!(
        started.data.unwrap(),
        j(r#"{"name":"wf-1.0.0.ns","executionId":"exec","task":{"id":"t1","name":"task1"},
            "startedAt":"t"}"#)
    );
    let completed = em.task_completed(&wf(), "exec", "t1", "task1", "t");
    assert_eq!(completed.type_, TASK_COMPLETED);
    let retried = em.task_retried(&wf(), "exec", "t1", "task1", 2, "t");
    assert_eq!(retried.type_, TASK_RETRIED);
    assert_eq!(retried.data.unwrap().get("attempt").unwrap(), &j("2"));
    assert_eq!(retried.id, "exec.t1.retried");
    let faulted = em.task_faulted(&wf(), "exec", "t1", "task1", "t", &j("{}"));
    assert_eq!(faulted.type_, TASK_FAULTED);
    assert_eq!(faulted.data.unwrap().get("error").unwrap(), &j("{}"));
}
