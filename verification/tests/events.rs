//! Events, matching, the broker and the fakes.

use ows_runtime::clock::Duration;
use ows_runtime::context::ExpressionContext;
use ows_runtime::dict::Dict;
use ows_runtime::events::{
    values_equal, CloudEvent, EventMatcher, FieldConstraint, InMemoryBroker, Pattern,
    CLOUDEVENTS_SPEC_VERSION,
};
use ows_runtime::json::{Number, Object, Value};
use ows_runtime::schedule::{
    cron_error, describe_trigger, CronSchedule, EventMessageLike, NoCancel, NoopScheduler,
    RecordingScheduler, ScheduleTrigger, ScheduledExecution, Scheduler, CRON_END, LAST_TIME,
};
use ows_runtime::service::{
    EventMessage, EventPublisher, ServiceInvoker, ServiceRequest, ServiceResponse,
};
use ows_runtime::testing::{
    FakeHttpFunction, FakeServiceInvoker, RecordingEventPublisher, TestClock,
};

/// Reads a value from JSON text.
fn j(text: &str) -> Value {
    convert(&serde_json::from_str(text).unwrap())
}

fn convert(v: &serde_json::Value) -> Value {
    match v {
        serde_json::Value::Null => Value::Null,
        serde_json::Value::Bool(b) => Value::Bool(*b),
        serde_json::Value::Number(n) => Value::Number(if let Some(u) = n.as_u64() {
            Number::PosInt(u)
        } else if let Some(i) = n.as_i64() {
            Number::NegInt(i)
        } else {
            Number::Float(n.as_f64().unwrap().to_bits())
        }),
        serde_json::Value::String(s) => Value::String(s.clone()),
        serde_json::Value::Array(items) => Value::Array(items.iter().map(convert).collect()),
        serde_json::Value::Object(map) => {
            let mut o = Object::new();
            for (k, v) in map {
                o.insert(k.clone(), convert(v));
            }
            Value::Object(o)
        }
    }
}

type Predicate = fn(&CloudEvent) -> bool;

fn event() -> CloudEvent {
    let mut e = CloudEvent::new("1", "/shop", "order.placed").with_time("t").with_data(j(
        r#"{"amount": 5, "note": "rush order"}"#,
    ));
    e.extensions.insert("tenant".into(), j("\"blue\""));
    e
}

#[test]
fn events_become_messages_and_back() {
    let e = event();
    let m = e.to_message();
    assert_eq!(m.type_, "order.placed");
    let back = CloudEvent::from_message(&m);
    assert_eq!(back.specversion, CLOUDEVENTS_SPEC_VERSION);
    assert_eq!(back.data, e.data);
    assert_eq!(back.extensions, e.extensions);
    assert_eq!(back.time.as_deref(), Some("t"));
}

#[test]
fn matchers_look_at_every_part() {
    let any: EventMatcher<Predicate> = EventMatcher::new();
    assert!(any.matches(&event()));
    let typed = EventMatcher { type_: Some("order.placed".into()), ..EventMatcher::<Predicate>::new() };
    assert!(typed.matches(&event()));
    let other = EventMatcher { source: Some("/bank".into()), ..EventMatcher::<Predicate>::new() };
    assert!(!other.matches(&event()));
    let blank = EventMatcher { subject: Some(String::new()), ..EventMatcher::<Predicate>::new() };
    assert!(blank.matches(&event()));
}

#[test]
fn constraints_are_checked() {
    let check = |key: &str, c: FieldConstraint<Predicate>| {
        let mut m: EventMatcher<Predicate> = EventMatcher::new();
        m.attributes.push((key.to_string(), c));
        m.matches(&event())
    };
    assert!(check("amount", FieldConstraint::Equals(j("5.0"))));
    assert!(!check("amount", FieldConstraint::Equals(j("6"))));
    assert!(check("tenant", FieldConstraint::Equals(j("\"blue\""))));
    assert!(check("missing", FieldConstraint::Equals(Value::Null)));
    assert!(check("type", FieldConstraint::MatchesRegex(Pattern::new("^order\\.").unwrap())));
    assert!(!check("note", FieldConstraint::MatchesRegex(Pattern::new("^order").unwrap())));
    assert!(!check("amount", FieldConstraint::MatchesRegex(Pattern::new("5").unwrap())));
    assert!(check("id", FieldConstraint::Expression(|e| e.id == "1")));
    assert!(!check("id", FieldConstraint::Expression(|e| e.id == "2")));
    assert!(Pattern::new("(").is_none());
    assert!(values_equal(&j("[1, {\"a\": 2.0}]"), &j("[1.0, {\"a\": 2}]")));
    assert!(!values_equal(&j("[1]"), &j("[1, 2]")));
}

#[test]
fn the_broker_delivers_to_those_that_accept() {
    let mut broker: InMemoryBroker<Box<dyn Fn(&EventMessage) -> bool>> = InMemoryBroker::new();
    let a = broker.subscribe(Box::new(|_| true));
    let b = broker.subscribe(Box::new(|e| e.id == "2"));
    broker.publish(&EventMessage::new("1", "s", "t")).unwrap();
    broker.publish(&EventMessage::new("2", "s", "t")).unwrap();
    assert_eq!(broker.recv(a).unwrap().id, "1");
    assert_eq!(broker.recv(a).unwrap().id, "2");
    assert!(broker.recv(a).is_none());
    assert_eq!(broker.recv(b).unwrap().id, "2");
    assert_eq!(broker.len(), 2);
}

fn execution(trigger: ScheduleTrigger) -> ScheduledExecution {
    ScheduledExecution {
        trigger,
        workflow_namespace: "ns".into(),
        workflow_name: "wf".into(),
        workflow_version: "1".into(),
    }
}

#[test]
fn recorded_schedules() {
    let mut s = RecordingScheduler::new();
    let id = s.schedule(execution(ScheduleTrigger::Cron("0 0 * * * *".into()))).unwrap().id;
    assert_eq!(id, "sched-0");
    let id = s.schedule(execution(ScheduleTrigger::Every(Duration::from_secs(1)))).unwrap().id;
    assert_eq!(id, "sched-1");
    assert_eq!(s.recorded().len(), 2);
    assert_eq!(NoopScheduler.schedule_id("Every", 12), "Every-12");
}

#[test]
fn triggers_are_described() {
    assert_eq!(
        describe_trigger(&ScheduleTrigger::Every(Duration::from_millis(1500))),
        "every 1500ms"
    );
    assert_eq!(
        describe_trigger(&ScheduleTrigger::After(Duration::from_nanos(2_999_999))),
        "after 2ms"
    );
    assert_eq!(describe_trigger(&ScheduleTrigger::Cron("* *".into())), "cron `* *`");
    let like = |t: &str| EventMessageLike { type_: t.into(), source: None };
    assert_eq!(
        describe_trigger(&ScheduleTrigger::OnEvents(vec![like("a"), like("b")])),
        "on events [a, b]"
    );
}

#[test]
fn cron_times() {
    let c = CronSchedule::parse("0 0 0 * * *").unwrap();
    assert_eq!(c.expression(), "0 0 0 * * *");
    assert_eq!(c.next_after_epoch(0), Some(86400));
    assert_eq!(c.next_after_epoch_n(0, 3), vec![86400, 172800, 259200]);
    assert!(c.next_after_epoch_n(0, 0).is_empty());
    assert_eq!(c.next_after_epoch(i64::MAX), None);
    let e = CronSchedule::parse("nonsense").unwrap_err();
    assert!(e.problem.detail.unwrap().starts_with("invalid cron expression `nonsense`: "));
}

fn response(body: Option<Value>) -> ServiceResponse {
    ServiceResponse {
        status: 200,
        headers: Dict::new(),
        body,
        raw: Some(vec![1, 2]),
        content_type: None,
    }
}

#[test]
fn fake_services_answer_from_stubs() {
    let mut s = FakeServiceInvoker::new();
    s.stub("GET", "http://x", response(Some(j("7"))));
    let request = ServiceRequest {
        service: "http".into(),
        operation: "GET".into(),
        uri: Some("http://x".into()),
        headers: Dict::new(),
        body: None,
        query: Object::new(),
        timeout: None,
    };
    assert_eq!(s.invoke(&request).unwrap().body, Some(j("7")));
    let other = ServiceRequest { uri: None, ..request.clone() };
    let e = s.invoke(&other).unwrap_err();
    assert_eq!(e.problem.detail.unwrap(), "no stub for `GET `");
    assert_eq!(s.calls().len(), 2);
}

#[test]
fn fake_functions_expand_templates() {
    let mut s = FakeServiceInvoker::new();
    s.stub("POST", "http://x/42/a b/{gone}", response(None));
    let mut f = FakeHttpFunction::new(s);
    let ctx = ExpressionContext {
        workflow: Some(j(r#"{"input": {"id": 42, "name": "a b"}}"#)),
        ..Default::default()
    };
    let Value::Object(args) =
        j(r#"{"method": "post", "endpoint": {"uri": "http://x/{id}/{name}/{gone}"}, "body": 1}"#)
    else {
        panic!()
    };
    assert_eq!(f.invoke(&args, &ctx).unwrap(), Value::Null);
    let Value::Object(args) = j(r#"{"endpoint": "http://y"}"#) else {
        panic!()
    };
    let e = f.invoke(&args, &ctx).unwrap_err();
    assert_eq!(e.problem.detail.unwrap(), "no stub for `GET http://y`");
}

#[test]
fn test_clocks_and_recorders() {
    let mut clock = TestClock::new();
    clock.advance_ms(2500);
    assert_eq!(clock.now(), 2);
    assert_eq!(clock.arc().elapsed().as_millis(), 2500);
    let mut p = RecordingEventPublisher::new();
    p.publish(&EventMessage::new("1", "s", "t")).unwrap();
    assert_eq!(p.events()[0].id, "1");
}

#[test]
fn fake_functions_send_the_given_operation() {
    let mut s = FakeServiceInvoker::new();
    s.stub("Put", "http://y", response(Some(j("3"))));
    let mut f = FakeHttpFunction::new(s);
    let ctx = ExpressionContext::default();
    let Value::Object(args) = j(r#"{"method": "get", "endpoint": "http://y"}"#) else {
        panic!()
    };
    assert_eq!(f.send("Put".into(), &args, &ctx).unwrap(), j("3"));
    assert_eq!(f.service().calls().len(), 1);
    assert_eq!(f.service().calls()[0].operation, "Put");
    assert_eq!(FakeHttpFunction::request("X".into(), &args, &ctx).operation, "X");
}

#[test]
fn cron_times_increase() {
    let s = CronSchedule::parse("0 0 12 * * *").unwrap();
    let times = s.next_after_epoch_n(0, 5);
    assert_eq!(times, [43_200, 129_600, 216_000, 302_400, 388_800]);
    assert_eq!(s.next_after_epoch(CRON_END), None);
    assert_eq!(s.next_after_epoch(LAST_TIME - 1), None);
    assert_eq!(s.next_after_epoch(LAST_TIME + 1), None);
    let e = cron_error("x", "bad");
    assert_eq!(e.problem.detail.unwrap(), "invalid cron expression `x`: bad");
}

#[test]
fn recorded_in_order() {
    let mut s = RecordingScheduler::new();
    for i in 0..12 {
        let handle = s.schedule(execution(ScheduleTrigger::Cron(format!("c{i}")))).unwrap();
        assert_eq!(handle.id, format!("sched-{i}"));
        assert_eq!(handle.cancel, NoCancel);
    }
    for (i, e) in s.recorded().iter().enumerate() {
        assert!(matches!(&e.trigger, ScheduleTrigger::Cron(c) if *c == format!("c{i}")));
    }
    assert_eq!(s.recorded().len(), 12);
    let copy = s.clone();
    assert_eq!(copy.recorded().len(), 12);
    assert!(RecordingScheduler::default().recorded().is_empty());
}
