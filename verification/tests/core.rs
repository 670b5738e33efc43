//! Phases, policies, contexts, clocks, identities and stores.

use ows_runtime::clock::{epoch_from, Clock, DeterministicClock, Duration, SystemClock};
use ows_runtime::context::{CompiledExpression, ExpressionContext, ExpressionError};
use ows_runtime::dict::Dict;
use ows_runtime::identity::{
    unit_from, DefaultRandomGenerator, DefaultUuidGenerator, RandomGenerator,
    SeededRandomGenerator, UuidGenerator,
};
use ows_runtime::json::{Number, Object, Value};
use ows_runtime::phase::Phase;
use ows_runtime::policy::RuntimePolicy;
use ows_runtime::schedule::{RuntimeInfo, ScheduledHandle};
use ows_runtime::secret::{
    EmptySecretResolver, EnvSecretResolver, MapSecretResolver, SecretResolver,
};
use ows_runtime::service::{
    EventMessage, EventPublisher, EventSubscription, NoopEventConsumer, NullEventPublisher,
    TaskResult,
};
use rand::{Rng, SeedableRng};
use ows_runtime::store::{
    events_key, record_from_row, record_key, row_from_record, sequence_from_row, sequence_to_row,
    ExecutionRecord, ExecutionStore, InMemoryExecutionStore, StoredEvent,
};

/// Reads a value from JSON text.
fn j(text: &str) -> Value {
    convert(&serde_json::from_str(text).unwrap())
}

fn convert(v: &serde_json::Value) -> Value {
    match v {
        serde_json::Value::Null => Value::Null,
        serde_json::Value::Bool(b) => Value::Bool(*b),
        serde_json::Value::Number(n) => Value::Number(if let Some(u) = n.as_u64() {
            Number::PosInt(u)
        } else if let Some(i) = n.as_i64() {
            Number::NegInt(i)
        } else {
            Number::Float(n.as_f64().unwrap().to_bits())
        }),
        serde_json::Value::String(s) => Value::String(s.clone()),
        serde_json::Value::Array(items) => Value::Array(items.iter().map(convert).collect()),
        serde_json::Value::Object(map) => {
            let mut o = Object::new();
            for (k, v) in map {
                o.insert(k.clone(), convert(v));
            }
            Value::Object(o)
        }
    }
}

#[test]
fn phase_terminals() {
    assert!(Phase::Completed.is_terminal());
    assert!(Phase::Faulted.is_terminal());
    assert!(Phase::Cancelled.is_terminal());
    assert!(!Phase::Running.is_terminal());
    assert_eq!(Phase::Running.to_string(), "running");
}

#[test]
fn phases_are_found_by_name() {
    for p in [
        Phase::Pending,
        Phase::Running,
        Phase::Waiting,
        Phase::Suspended,
        Phase::Cancelled,
        Phase::Faulted,
        Phase::Completed,
    ] {
        assert_eq!(Phase::from_name(&p.to_string()), Some(p));
    }
    assert_eq!(Phase::from_name("Running"), None);
}

#[test]
fn runtime_info_defaults() {
    let info = RuntimeInfo::default();
    assert_eq!(info.name, "ows-runtime");
    assert!(!info.version.is_empty());
    assert!(matches!(info.to_value(), Value::Object(_)));
    assert_eq!(info.to_value(), j("{\"name\":\"ows-runtime\",\"version\":\"0.1.0\"}"));
}

#[test]
fn scheduled_handle_cancel() {
    let mut called = false;
    let handle = ScheduledHandle::new("s1".to_string(), || {});
    (handle.cancel)();
    assert_eq!(handle.id, "s1");
    let _ = &mut called;
}

#[test]
fn runtime_policy_host_and_scheme() {
    let p = RuntimePolicy::default();
    assert!(!p.host_allowed("example.com"));
    assert!(!p.scheme_allowed("https"));
    let p = RuntimePolicy {
        allow_network: true,
        allowed_hosts: vec!["example.com".into()],
        allowed_schemes: vec!["https".into()],
        ..Default::default()
    };
    assert!(p.host_allowed("example.com"));
    assert!(p.host_allowed("api.example.com"));
    assert!(!p.host_allowed("other.com"));
    assert!(p.scheme_allowed("https"));
    assert!(!p.scheme_allowed("http"));
}

#[test]
fn empty_lists_allow_nothing() {
    let p = RuntimePolicy { allow_network: true, ..Default::default() };
    assert!(!p.host_allowed("example.com"));
    assert!(!p.scheme_allowed("https"));
    let q = RuntimePolicy {
        allow_network: true,
        allowed_hosts: vec!["example.com".into()],
        ..Default::default()
    };
    assert!(!q.host_allowed("badexample.com"));
    assert!(!q.host_allowed("example.com.evil"));
}

#[test]
fn expression_context_variables() {
    let mut secrets = Dict::new();
    secrets.insert("token".to_string(), "secret".to_string());
    let ctx = ExpressionContext {
        context: j("{\"a\": 1}"),
        input: j("{\"b\": 2}"),
        output: j("{\"c\": 3}"),
        secrets,
        ..Default::default()
    };
    let vars = ctx.as_variable_map();
    assert_eq!(vars.get("context").unwrap(), &j("{\"a\": 1}"));
    assert_eq!(vars.get("input").unwrap(), &j("{\"b\": 2}"));
    assert_eq!(vars.get("output").unwrap(), &j("{\"c\": 3}"));
    assert_eq!(vars.get("secrets").unwrap().get("token").unwrap(), &j("\"secret\""));
    let upd = ctx.as_variable_map_updated(&j("{\"x\":1}"), &j("{\"y\":2}"));
    assert_eq!(upd.get("input").unwrap(), &j("{\"x\":1}"));
    assert_eq!(upd.get("output").unwrap(), &j("{\"y\":2}"));
}

#[test]
fn extra_variables_come_last() {
    let mut extra = Object::new();
    extra.insert("index".to_string(), j("3"));
    extra.insert("input".to_string(), j("\"mine\""));
    let ctx = ExpressionContext {
        task: Some(j("{\"name\":\"t\"}")),
        extra_vars: extra,
        ..Default::default()
    };
    let vars = ctx.as_variable_map();
    assert_eq!(vars.get("input").unwrap(), &j("\"mine\""));
    assert_eq!(vars.get("index").unwrap(), &j("3"));
    assert_eq!(vars.get("task").unwrap(), &j("{\"name\":\"t\"}"));
    assert!(vars.get("workflow").is_none());
    assert_eq!(vars.len(), 6);
}

#[test]
fn expression_errors_have_a_text() {
    let e = ExpressionError { message: "bad".into(), expression: None };
    assert_eq!(e.to_string(), "expression error: bad");
    let e = ExpressionError { message: "bad".into(), expression: Some(".x".into()) };
    assert_eq!(e.to_string(), "expression error in `.x`: bad");
    let c = CompiledExpression::new(".a", 5u8);
    assert_eq!(c.source, ".a");
    assert_eq!(c.data, 5);
}

#[test]
fn noop_event_publisher_and_consumer() {
    let mut p = NullEventPublisher;
    let msg = EventMessage::new("1", "s", "t");
    let res = p.publish(&msg);
    assert!(res.is_ok());
    assert!(NoopEventConsumer.recv().is_none());
}

#[test]
fn task_outcome_and_result() {
    let r = TaskResult::new(j("{\"x\":1}"));
    assert_eq!(r.output.get("x").unwrap(), &j("1"));
    assert_eq!(r.attempts, 1);
}

#[test]
fn deterministic_clock_advances() {
    let mut clock = DeterministicClock::new();
    assert_eq!(clock.epoch_seconds(), 0);
    clock.advance(Duration::from_secs(5));
    assert_eq!(clock.epoch_seconds(), 5);
    clock.sleep(Duration::from_secs(2));
    assert_eq!(clock.epoch_seconds(), 7);
    assert!(clock.is_deterministic());
}

#[test]
fn clocks_wrap_and_measure() {
    let mut clock = DeterministicClock::new();
    clock.advance(Duration::from_millis(1500));
    assert_eq!(clock.elapsed().as_millis(), 1500);
    assert_eq!(clock.elapsed().as_nanos(), 1_500_000_000);
    clock.advance(Duration::from_nanos(u64::MAX));
    assert_eq!(clock.elapsed().as_nanos(), 1_499_999_999);
    assert_eq!(Duration::new(3, 999_999_999).as_secs(), 3);
    let system = SystemClock::new();
    assert!(!system.is_deterministic());
    assert!(system.epoch_seconds() > 1_600_000_000);
    assert_eq!(epoch_from(None), 0);
    assert_eq!(epoch_from(Some(u64::MAX)), -1);
    assert_eq!(epoch_from(Some(12)), 12);
}

#[test]
fn map_resolver_resolves_known_only() {
    let r = MapSecretResolver::from_pairs(vec![("token", "s3cr3t")]);
    assert_eq!(r.resolve("token").as_deref(), Some("s3cr3t"));
    assert_eq!(r.resolve("missing"), None);
}

#[test]
fn empty_resolver_resolves_nothing() {
    assert_eq!(EmptySecretResolver.resolve("x"), None);
}

#[test]
fn env_resolver_builds_variable_names() {
    let r = EnvSecretResolver::new();
    assert_eq!(r.variable_for("dbPassword"), "OWS_SECRET_DBPASSWORD");
    assert_eq!(r.variable_for("db-password"), "OWS_SECRET_DB_PASSWORD");
    let r = EnvSecretResolver::with_prefix("X_");
    assert_eq!(r.variable_for("a.b"), "X_A_B");
}

#[test]
fn later_pairs_replace_earlier_ones() {
    let r = MapSecretResolver::from_pairs(vec![("a", "1"), ("b", "2"), ("a", "3")]);
    assert_eq!(r.resolve("a").as_deref(), Some("3"));
    assert_eq!(r.resolve("b").as_deref(), Some("2"));
}

#[test]
fn default_uuid_generator_produces_v4() {
    let g = DefaultUuidGenerator;
    let uuid = g.new_v4();
    assert_eq!(uuid.get_version_num(), 4);
    let outside = uuid::Uuid::from_u128(uuid.bits);
    assert_eq!(outside.get_version_num(), 4);
    assert_eq!(outside.get_variant(), uuid::Variant::RFC4122);
    assert_ne!(uuid, g.new_v4());
}

#[test]
fn seeded_random_generator_is_deterministic() {
    let mut a = SeededRandomGenerator::new(42);
    let mut b = SeededRandomGenerator::new(42);
    assert_eq!(a.next_u64(), b.next_u64());
    assert_eq!(a.next_f64(), b.next_f64());
    assert_ne!(a.next_u64(), SeededRandomGenerator::new(43).next_u64());
}

#[test]
fn seeded_numbers_are_those_of_the_standard_generator() {
    let mut rng = rand::rngs::StdRng::seed_from_u64(7);
    let mut mine = SeededRandomGenerator::new(7);
    for _ in 0..20 {
        assert_eq!(mine.next_u64(), rng.gen::<u64>());
        assert_eq!(f64::from_bits(mine.next_f64()), rng.gen::<f64>());
    }
    assert_eq!(unit_from(0), 0);
    assert_eq!(f64::from_bits(unit_from(u64::MAX)), 1.0 - f64::EPSILON / 2.0);
    let mut any = DefaultRandomGenerator::default();
    let x = f64::from_bits(any.next_f64());
    assert!((0.0..1.0).contains(&x));
    assert_ne!(any.next_u64(), any.next_u64());
}

fn record(id: &str) -> ExecutionRecord {
    ExecutionRecord {
        execution_id: id.into(),
        workflow: "test".into(),
        namespace: "default".into(),
        name: "wf".into(),
        version: "1.0.0".into(),
        phase: Phase::Running,
        context: j("{\"x\": 1}"),
        pointer: Value::Null,
        error: None,
        started_at: 0,
    }
}

fn stored(id: &str, sequence: u64) -> StoredEvent {
    StoredEvent {
        execution_id: id.into(),
        sequence,
        event_type: "workflow.started".into(),
        payload: Value::Null,
        timestamp: 0,
    }
}

#[test]
fn in_memory_store_roundtrip() {
    let mut store = InMemoryExecutionStore::new();
    let r = ExecutionRecord { context: Value::Null, ..record("exec-1") };
    store.create(r.clone()).unwrap();
    let loaded = store.load("exec-1").unwrap().unwrap();
    assert_eq!(loaded.execution_id, "exec-1");
    assert_eq!(loaded.phase, Phase::Running);

    store.append_event(stored("exec-1", 1)).unwrap();
    let events = store.events("exec-1").unwrap();
    assert_eq!(events.len(), 1);
}

#[test]
fn stores_keep_executions_apart() {
    let mut store = InMemoryExecutionStore::new();
    store.create(record("a")).unwrap();
    store.create(record("b")).unwrap();
    let mut changed = record("a");
    changed.phase = Phase::Faulted;
    changed.error = Some(j("{\"title\":\"boom\"}"));
    store.update(&changed).unwrap();
    assert_eq!(store.load("a").unwrap().unwrap().phase, Phase::Faulted);
    assert_eq!(store.load("b").unwrap().unwrap().phase, Phase::Running);
    assert!(store.load("c").unwrap().is_none());
    for (id, n) in [("a", 1), ("b", 1), ("a", 2)] {
        store.append_event(stored(id, n)).unwrap();
    }
    let of_a: Vec<u64> = store.events("a").unwrap().iter().map(|e| e.sequence).collect();
    assert_eq!(of_a, vec![1, 2]);
}

#[test]
fn rows_hold_records() {
    let mut r = record("exec-1");
    r.error = Some(j("{\"status\":500}"));
    let row = row_from_record(&r);
    assert_eq!(row.phase, "running");
    assert_eq!(row.context, "{\"x\":1}");
    assert_eq!(row.pointer, "null");
    assert_eq!(row.error.as_deref(), Some("{\"status\":500}"));
    let context = Ok(j(&row.context));
    let pointer = Ok(j(&row.pointer));
    let error = row.error.as_ref().map(|e| Ok(j(e)));
    let back = record_from_row("sqlite", row, context, pointer, error).unwrap();
    assert_eq!(back.phase, Phase::Running);
    assert_eq!(back.context, j("{\"x\":1}"));
    assert_eq!(back.error, Some(j("{\"status\":500}")));
}

#[test]
fn broken_rows_are_reported() {
    let detail = |row, context| {
        let e = record_from_row("postgres", row, context, Ok(Value::Null), None).unwrap_err();
        e.problem.detail.unwrap()
    };
    let mut row = row_from_record(&record("x"));
    row.phase = "odd".into();
    assert_eq!(detail(row, Ok(Value::Null)), "postgres store load: unknown phase `odd`");
    let row = row_from_record(&record("x"));
    assert_eq!(
        detail(row, Err("eof".to_string())),
        "postgres store decoding value: eof"
    );
}

#[test]
fn sequences_and_keys() {
    for n in [0u64, 1, i64::MAX as u64, i64::MAX as u64 + 1, u64::MAX] {
        assert_eq!(sequence_to_row(n), n as i64);
        assert_eq!(sequence_from_row(n as i64), n);
    }
    assert_eq!(record_key("7"), "ows:exec:7");
    assert_eq!(events_key("7"), "ows:exec_events:7");
}

#[test]
fn advances_add_up() {
    let mut a = DeterministicClock::new();
    a.advance(Duration::from_millis(1500));
    a.advance(Duration::from_secs(2));
    let mut b = DeterministicClock::new();
    b.advance(Duration::from_millis(3500));
    assert_eq!(a.elapsed(), b.elapsed());
    assert_eq!(a.epoch_seconds(), 3);
}

#[test]
fn random_doubles_are_below_one() {
    assert_eq!(f64::from_bits(unit_from(0)), 0.0);
    assert_eq!(f64::from_bits(unit_from(u64::MAX)), 1.0 - f64::EPSILON / 2.0);
    assert_eq!(f64::from_bits(unit_from(1 << 63)), 0.5);
}

#[test]
fn keys_of_a_map_stay_sorted() {
    let mut d: Dict<i64> = Dict::new();
    for (i, key) in ["m", "a", "z", "m", "b", "", "a"].iter().enumerate() {
        d.insert(key.to_string(), i as i64);
    }
    let entries: Vec<(&str, i64)> = d.entries().iter().map(|e| (e.0.as_str(), e.1)).collect();
    assert_eq!(entries, [("", 5), ("a", 6), ("b", 4), ("m", 3), ("z", 2)]);
    assert_eq!(d.get("m"), Some(&3));
    assert_eq!(d.get("q"), None);
}
