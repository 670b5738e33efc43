//! Export of lifecycle events.

use ows_runtime::json::{Number, Object, Value};
use ows_runtime::service::EventMessage;
use ows_runtime::telemetry::{
    check_status, clamp_time, encode_log_request, encode_trace_request, event_time_nanos, hash_hex,
    hex_bytes, id_from_words, log_record_at, log_request_at, logs_request, metrics_request,
    read_hex, read_time, send_error, span_at, trace_request_at, traces_request, MetricData,
    RuntimeMetrics,
};
use ows_runtime::value::write_json;
use std::hash::{Hash, Hasher};

/// Reads a value from JSON text.
fn j(text: &str) -> Value {
    convert(&serde_json::from_str(text).unwrap())
}

fn convert(v: &serde_json::Value) -> Value {
    match v {
        serde_json::Value::Null => Value::Null,
        serde_json::Value::Bool(b) => Value::Bool(*b),
        serde_json::Value::Number(n) => Value::Number(if let Some(u) = n.as_u64() {
            Number::PosInt(u)
        } else if let Some(i) = n.as_i64() {
            Number::NegInt(i)
        } else {
            Number::Float(n.as_f64().unwrap().to_bits())
        }),
        serde_json::Value::String(s) => Value::String(s.clone()),
        serde_json::Value::Array(items) => Value::Array(items.iter().map(convert).collect()),
        serde_json::Value::Object(map) => {
            let mut o = Object::new();
            for (k, v) in map {
                o.insert(k.clone(), convert(v));
            }
            Value::Object(o)
        }
    }
}

fn event() -> EventMessage {
    let mut e = EventMessage::new(
        "exec.1.started",
        "/ns/wf/1.0.0",
        "io.serverlessworkflow.workflow.started.v1",
    );
    e.time = Some("2024-01-01T00:00:00Z".into());
    e.subject = Some("exec-1".into());
    e.data = Some(j("{ \"name\": \"wf-1.0.0.ns\" }"));
    e
}

/// The value at a path of member names and array indexes.
fn at<'a>(v: &'a Value, path: &[&str]) -> &'a Value {
    let mut here = v;
    for part in path {
        here = match here {
            Value::Array(items) => &items[part.parse::<usize>().unwrap()],
            other => other.get(part).unwrap(),
        };
    }
    here
}

fn text(s: &str) -> Value {
    Value::String(s.into())
}

#[test]
fn encodes_otlp_json_shape() {
    let payload = encode_log_request(&event(), "my-service");
    let Value::Array(log_records) = at(&payload, &["resourceLogs", "0", "scopeLogs", "0", "logRecords"])
    else {
        panic!()
    };
    assert_eq!(log_records.len(), 1);
    let record = &log_records[0];
    assert_eq!(at(record, &["body", "stringValue"]), &text(&event().type_));
    assert_eq!(at(record, &["timeUnixNano"]), &text("1704067200000000000"));
    let Value::Array(attrs) = at(record, &["attributes"]) else {
        panic!()
    };
    assert!(attrs.iter().any(|a| at(a, &["key"]) == &text("event.type")));
}

#[test]
fn log_requests_are_exact() {
    let mut e = EventMessage::new("1", "/s", "t");
    e.time = Some("1969-12-31T23:59:59Z".into());
    assert_eq!(
        write_json(&encode_log_request(&e, "svc")),
        "{\"resourceLogs\":[{\"resource\":{\"attributes\":[{\"key\":\"service.name\",\"value\":{\"stringValue\":\"svc\"}}]},\"scopeLogs\":[{\"logRecords\":[{\"attributes\":[{\"key\":\"event.id\",\"value\":{\"stringValue\":\"1\"}},{\"key\":\"event.source\",\"value\":{\"stringValue\":\"/s\"}},{\"key\":\"event.type\",\"value\":{\"stringValue\":\"t\"}},{\"key\":\"service.name\",\"value\":{\"stringValue\":\"svc\"}}],\"body\":{\"stringValue\":\"t\"},\"severityText\":\"INFO\",\"timeUnixNano\":\"-1000000000\"}],\"scope\":{\"name\":\"ows-runtime\"}}]}]}"
    );
    assert_eq!(event_time_nanos(&e), 0);
    e.time = Some("not a time".into());
    assert_eq!(event_time_nanos(&e), 0);
}

#[test]
fn encodes_otlp_trace_shape() {
    let payload = encode_trace_request(&event(), "my-service");
    let span = at(&payload, &["resourceSpans", "0", "scopeSpans", "0", "spans", "0"]);
    assert_eq!(at(span, &["name"]), &text(&event().type_));
    assert_eq!(at(span, &["traceId"]).as_str().unwrap().len(), 32);
    assert_eq!(at(span, &["spanId"]).as_str().unwrap().len(), 16);
    assert_eq!(at(span, &["status", "code"]), &j("1"));
    assert_eq!(at(span, &["startTimeUnixNano"]), &text("1704067200000000000"));
}

#[test]
fn trace_status_is_error_for_faults() {
    let mut e = event();
    e.type_ = "io.serverlessworkflow.workflow.faulted.v1".into();
    let payload = encode_trace_request(&e, "svc");
    let span = at(&payload, &["resourceSpans", "0", "scopeSpans", "0", "spans", "0"]);
    assert_eq!(at(span, &["status", "code"]), &j("2"));
}

#[test]
fn encodes_counters_and_histograms() {
    let mut metrics = RuntimeMetrics::new();
    metrics.inc_counter("ows.workflow.completed", 3);
    metrics.observe_duration("ows.task.duration_ms", f64::to_bits(4.0));
    metrics.observe_duration("ows.task.duration_ms", f64::to_bits(250.0));

    let payload = metrics.encode_metrics_request("svc", 42);
    let Value::Array(encoded) = at(&payload, &["resourceMetrics", "0", "scopeMetrics", "0", "metrics"])
    else {
        panic!()
    };
    let counter =
        encoded.iter().find(|m| at(m, &["name"]) == &text("ows.workflow.completed")).unwrap();
    assert_eq!(at(counter, &["sum", "dataPoints", "0", "asInt"]), &text("3"));
    let histogram =
        encoded.iter().find(|m| at(m, &["name"]) == &text("ows.task.duration_ms")).unwrap();
    assert_eq!(at(histogram, &["histogram", "dataPoints", "0", "count"]), &text("2"));
    assert_eq!(at(histogram, &["histogram", "dataPoints", "0", "sum"]), &j("254.0"));
    assert_eq!(
        write_json(at(histogram, &["histogram", "dataPoints", "0"])),
        "{\"bucketCounts\":[\"0\",\"1\",\"0\",\"0\",\"0\",\"1\",\"0\",\"0\",\"0\"],\"count\":\"2\",\"explicitBounds\":[1.0,5.0,10.0,50.0,100.0,500.0,1000.0,5000.0],\"sum\":254.0,\"timeUnixNano\":\"42\"}"
    );
}

#[test]
fn records_workflow_terminal_counters() {
    let mut metrics = RuntimeMetrics::new();
    let mut completed = event();
    completed.type_ = "io.serverlessworkflow.workflow.completed.v1".into();
    let mut faulted = event();
    faulted.id = "exec.2.faulted".into();
    faulted.type_ = "io.serverlessworkflow.workflow.faulted.v1".into();
    metrics.record_event(&completed);
    metrics.record_event(&faulted);
    let counters = metrics.counters();
    assert_eq!(counters.get("ows.workflow.completed"), Some(&1));
    assert_eq!(counters.get("ows.workflow.faulted"), Some(&1));
    let name = format!("ows.events.{}", completed.type_);
    assert_eq!(counters.get(&name), Some(&1));
}

#[test]
fn builds_logs_and_traces_requests() {
    let mut e = event();
    e.data = Some(j("{ \"name\": \"wf\" }"));
    let logs = logs_request(&e, "svc");
    let record = &logs.items[0];
    assert_eq!(record.time_unix_nano, 1_704_067_200_000_000_000);
    assert_eq!(record.body, e.type_);

    let traces = traces_request(&e, "svc");
    let span = &traces.items[0];
    assert_eq!(span.trace_id.len(), 16);
    assert_eq!(span.span_id.len(), 8);
    assert_eq!(span.name, event().type_);
    assert_eq!(span.status_code, 1);
    assert_eq!(span.attributes.last().unwrap().1, "{\"name\":\"wf\"}");
    assert_eq!(span.attributes.len(), 4);
    assert_eq!(record.attributes.len(), 5);
}

#[test]
fn builds_metrics_request() {
    let mut metrics = RuntimeMetrics::new();
    metrics.inc_counter("ows.workflow.completed", 3);
    metrics.observe_duration("ows.task.duration_ms", f64::to_bits(4.0));
    let request = metrics_request(&metrics, "svc", 42);
    let encoded = &request.items;
    assert!(encoded.iter().any(|m| m.name == "ows.workflow.completed"));
    assert!(encoded.iter().any(|m| m.name == "ows.task.duration_ms"));
    assert!(matches!(encoded[0].data, MetricData::Sum(3)));
    let MetricData::Histogram { count, sum, bucket_counts, .. } = &encoded[1].data else {
        panic!()
    };
    assert_eq!((*count, f64::from_bits(*sum)), (1, 4.0));
    assert_eq!(bucket_counts.iter().sum::<u64>(), 1);
}

#[test]
fn identities_are_hashes_of_the_seed() {
    let mut expected = String::new();
    for counter in 0u64..2 {
        let mut hasher = std::collections::hash_map::DefaultHasher::new();
        counter.hash(&mut hasher);
        "seed".hash(&mut hasher);
        expected.push_str(&format!("{:016x}", hasher.finish()));
    }
    assert_eq!(hash_hex("seed", 16), expected);
    assert_eq!(hash_hex("seed", 8), expected[..16]);
    assert_eq!(hash_hex("seed", 5), expected[..10]);
    let bytes: String = hex_bytes("seed", 16).iter().map(|b| format!("{b:02x}")).collect();
    assert_eq!(bytes, expected);
    assert_ne!(hash_hex("seed", 8), hash_hex("other", 8));
}

#[test]
fn answers_of_a_collector() {
    assert!(check_status("otlp export", "http://c", 204).is_ok());
    let e = check_status("otlp export", "http://c", 503).unwrap_err();
    assert_eq!(e.problem.detail.unwrap(), "otlp export to `http://c` returned status 503");
    let e = send_error("otlp trace export", "http://c", "refused");
    assert_eq!(e.problem.detail.unwrap(), "otlp trace export to `http://c` failed: refused");
}

#[test]
fn identities_of_given_words() {
    let words = vec![0x0123_4567_89ab_cdef, 0xffff_0000_0000_0001];
    assert_eq!(id_from_words(&words, 8), "0123456789abcdef");
    assert_eq!(id_from_words(&words, 10), "0123456789abcdefffff");
    assert_eq!(id_from_words(&words, 16), "0123456789abcdefffff000000000001");
    assert_eq!(id_from_words(&vec![0], 4), "10000000");
    assert_eq!(read_hex("00ff7a"), vec![0, 255, 122]);
}

#[test]
fn records_at_a_given_time() {
    let e = event();
    let log = log_request_at(&e, "svc", Some(-5));
    let path = ["resourceLogs", "0", "scopeLogs", "0", "logRecords", "0", "timeUnixNano"];
    assert_eq!(at(&log, &path), &Value::String("-5".into()));
    let trace = trace_request_at(&e, "svc", Some(-5), "t", "s");
    let span = at(&trace, &["resourceSpans", "0", "scopeSpans", "0", "spans", "0"]);
    assert_eq!(span.get("startTimeUnixNano"), Some(&Value::String("0".into())));
    assert_eq!(span.get("traceId"), Some(&Value::String("t".into())));
    assert_eq!(span.get("spanId"), Some(&Value::String("s".into())));
    assert_eq!(log_record_at(&e, Some(7)).time_unix_nano, 7);
    let span = span_at(&e, None, vec![1], vec![2]);
    assert_eq!((span.trace_id, span.span_id, span.end_time_unix_nano), (vec![1], vec![2], 0));
    assert_eq!(read_time(&e), Some(1_704_067_200_000_000_000));
    assert_eq!(clamp_time(None), 0);
}
