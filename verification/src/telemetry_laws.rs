//! What holds of telemetry: identities, times, counters, buckets and requests.
use crate::builder::{object_of, singleton, text_entry};
use crate::dict::Entries;
use crate::double::{
    from_int, is_finite, law_integers_exact, law_sum_exact, lemma_units_zero, value,
};
use crate::json::{Json, Number, Object};
use crate::runtime_laws::law_built_members;
use crate::service::MessageModel;
use crate::telemetry::{
    DURATION_BUCKET_BOUNDS_MS, at_most, attribute, attribute_values, bound_values, bucket_bound,
    bucket_count, bucket_from, bucket_values, counted, counter, counter_json, event_attributes,
    event_counted, event_time, float_json, histogram_point, law_counting, log_json, rfc3339_nanos,
    sampled, samples_sum, span_json, status_code, string_value, time_from_zero, time_or_zero,
    trace_seed,
};
use crate::text::{decimal, decimal_int, occurs};
use crate::value::{json_text, lookup};
use vstd::prelude::*;

verus! {

// ---------------------------------------------------------------------------
// Events
// ---------------------------------------------------------------------------

/// An event without a time, or with one that cannot be read, counts as at time zero, and
/// so does one before the epoch where times are not negative.
pub proof fn law_event_times(e: MessageModel, n: i64)
    ensures
        e.time is None ==> event_time(e) is None,
        e.time matches Some(t) ==> event_time(e) == rfc3339_nanos(t),
        time_or_zero(None) == 0,
        time_or_zero(Some(n)) == n,
        time_from_zero(None) == 0,
        n >= 0 ==> time_from_zero(Some(n)) == n,
        n < 0 ==> time_from_zero(Some(n)) == 0,
{
}

/// The status of a span is an error exactly for the events of what was faulted,
/// cancelled or failed.
pub proof fn law_span_status(type_: Seq<char>)
    ensures
        status_code(type_) == 2 <==> occurs(type_, "faulted"@) || occurs(type_, "cancelled"@)
            || occurs(type_, "failed"@),
        status_code(type_) == 1 || status_code(type_) == 2,
{
}

/// Events of one source and subject belong to one trace, and the seed of a trace tells
/// both.
pub proof fn law_trace_seeds(e: MessageModel)
    ensures
        e.subject matches Some(s) ==> trace_seed(e) == e.source + "/"@ + s,
        e.subject is None ==> trace_seed(e) == e.source + "/"@,
{
    if e.subject is None {
        assert(e.source + "/"@ + Seq::<char>::empty() =~= e.source + "/"@);
    }
}

/// The attributes of an event tell its identity, source and type, the service where it
/// is asked for, its subject where it has one and it is asked for, and its data as JSON
/// text.
pub proof fn law_event_attributes(
    e: MessageModel,
    service: Option<Seq<char>>,
    subject: bool,
    pair: (Seq<char>, Seq<char>),
)
    ensures
        event_attributes(e, service, subject).contains(pair) <==> {
            ||| pair == ("event.id"@, e.id)
            ||| pair == ("event.source"@, e.source)
            ||| pair == ("event.type"@, e.type_)
            ||| service is Some && pair == ("service.name"@, service.unwrap())
            ||| subject && e.subject is Some && pair == ("event.subject"@, e.subject.unwrap())
            ||| e.data is Some && pair == ("event.data"@, json_text(e.data.unwrap()))
        },
{
    let a = seq![("event.id"@, e.id), ("event.source"@, e.source), ("event.type"@, e.type_)];
    let b = match service {
        Some(s) => seq![("service.name"@, s)],
        None => Seq::empty(),
    };
    let c = match e.subject {
        Some(s) => if subject {
            seq![("event.subject"@, s)]
        } else {
            Seq::empty()
        },
        None => Seq::empty(),
    };
    let d = match e.data {
        Some(v) => seq![("event.data"@, json_text(v))],
        None => Seq::empty(),
    };
    let all = event_attributes(e, service, subject);
    assert(all =~= a + b + c + d);
    assert(all[0] == a[0] && all[1] == a[1] && all[2] == a[2]);
    if b.len() > 0 {
        assert(all[3] == b[0]);
    }
    if c.len() > 0 {
        assert(all[(3 + b.len()) as int] == c[0]);
    }
    if d.len() > 0 {
        assert(all[(3 + b.len() + c.len()) as int] == d[0]);
    }
    if all.contains(pair) {
        let k = choose|k: int| 0 <= k < all.len() && all[k] == pair;
        if k < 3 {
            assert(pair == a[k]);
        } else if k < 3 + b.len() {
            assert(pair == b[k - 3]);
        } else if k < 3 + b.len() + c.len() {
            assert(pair == c[k - 3 - b.len()]);
        } else {
            assert(pair == d[k - 3 - b.len() - c.len()]);
        }
    }
}

// ---------------------------------------------------------------------------
// Counters and durations
// ---------------------------------------------------------------------------

/// Every event is counted once under its type; the end of a workflow is counted once
/// more, by whether it completed or faulted; and no other counter changes.
pub proof fn law_events_are_counted(m: Entries<i64>, type_: Seq<char>, other: Seq<char>)
    ensures
        ({
            let next = event_counted(m, type_);
            let (own, completed, faulted) = (
                "ows.events."@ + type_,
                "ows.workflow.completed"@,
                "ows.workflow.faulted"@,
            );
            &&& counter(next, own) == counter(m, own).wrapping_add(1)
            &&& counter(next, completed) == if occurs(type_, "workflow.completed"@) {
                counter(m, completed).wrapping_add(1)
            } else {
                counter(m, completed)
            }
            &&& counter(next, faulted) == if occurs(type_, "workflow.faulted"@) && !occurs(
                type_,
                "workflow.completed"@,
            ) {
                counter(m, faulted).wrapping_add(1)
            } else {
                counter(m, faulted)
            }
            &&& other != own && other != completed && other != faulted ==> counter(next, other)
                == counter(m, other)
        }),
{
    reveal_strlit("ows.events.");
    reveal_strlit("ows.workflow.completed");
    reveal_strlit("ows.workflow.faulted");
    let (own, completed, faulted) = (
        "ows.events."@ + type_,
        "ows.workflow.completed"@,
        "ows.workflow.faulted"@,
    );
    assert(own[4] == 'e' && completed[4] == 'w' && faulted[4] == 'w');
    assert(completed.len() == 22 && faulted.len() == 20);
    law_counting(m, own, 1, completed);
    law_counting(m, own, 1, faulted);
    law_counting(m, own, 1, other);
    let first = counted(m, own, 1);
    law_counting(first, completed, 1, own);
    law_counting(first, completed, 1, faulted);
    law_counting(first, completed, 1, other);
    law_counting(first, faulted, 1, own);
    law_counting(first, faulted, 1, completed);
    law_counting(first, faulted, 1, other);
}

/// The bucket of a duration in whole milliseconds: the first whose bound is not below
/// it, and the last one for all above five seconds.
pub proof fn law_buckets(n: nat)
    requires
        n < 0x20_0000_0000_0000,
    ensures
        bucket_from(from_int(n as int), 0) == if n <= 1 {
            0
        } else if n <= 5 {
            1
        } else if n <= 10 {
            2
        } else if n <= 50 {
            3
        } else if n <= 100 {
            4
        } else if n <= 500 {
            5
        } else if n <= 1000 {
            6
        } else if n <= 5000 {
            7
        } else {
            8int
        },
{
    let x = from_int(n as int);
    lemma_bound(n, 0, 1);
    lemma_bound(n, 1, 5);
    lemma_bound(n, 2, 10);
    lemma_bound(n, 3, 50);
    lemma_bound(n, 4, 100);
    lemma_bound(n, 5, 500);
    lemma_bound(n, 6, 1000);
    lemma_bound(n, 7, 5000);
    reveal_with_fuel(bucket_from, 10);
}

/// A whole number of milliseconds is not above a bound as the integers are.
proof fn lemma_bound(n: nat, i: int, bound: nat)
    requires
        n < 0x20_0000_0000_0000,
        0 <= i < 8,
        DURATION_BUCKET_BOUNDS_MS[i] == bound,
        bound <= 5000,
    ensures
        at_most(from_int(n as int), bucket_bound(i)) <==> n <= bound,
{
    law_integers_exact(n as int);
    law_integers_exact(bound as int);
    vstd::arithmetic::power2::lemma_pow2_pos(1074);
    let u = vstd::arithmetic::power2::pow2(1074) as int;
    assert((n * u < bound * u <==> n < bound) && (n * u == bound * u <==> n == bound))
        by (nonlinear_arith)
        requires
            u > 0,
    ;
}

/// One more sample is counted in its bucket and in no other, and is added to the sum
/// where the sum is a number.
pub proof fn law_samples(s: Seq<u64>, x: u64, bucket: int, c: u64)
    ensures
        bucket_count(Seq::<u64>::empty(), bucket) == 0,
        bucket_count(s.push(x), bucket) == bucket_count(s, bucket) + (if bucket_from(x, 0)
            == bucket {
            1nat
        } else {
            0
        }),
        value(samples_sum(Seq::<u64>::empty())) == 0,
        is_finite(samples_sum(s)) && is_finite(x) && is_finite(c) && value(samples_sum(s))
            + value(x) == value(c) ==> value(samples_sum(s.push(x))) == value(c),
{
    assert(s.push(x).drop_last() =~= s);
    assert(s.push(x).last() == x);
    lemma_units_zero();
    if is_finite(samples_sum(s)) && is_finite(x) && is_finite(c) && value(samples_sum(s)) + value(x)
        == value(c) {
        law_sum_exact(samples_sum(s), x, c);
    }
}

/// Only durations with samples are reported, each with all its samples, in order.
pub proof fn law_sampled(m: Seq<(Seq<char>, Seq<u64>)>)
    ensures
        sampled(m) == m.filter(|d: (Seq<char>, Seq<u64>)| d.1.len() > 0),
    decreases m.len(),
{
    reveal(Seq::filter);
    if m.len() > 0 {
        law_sampled(m.drop_last());
    }
}

// ---------------------------------------------------------------------------
// Requests
// ---------------------------------------------------------------------------

/// A member of an object.
pub open spec fn member_at(j: Json, key: Seq<char>) -> Option<Json> {
    if j is Object {
        lookup(j->Object_0, key)
    } else {
        None
    }
}

/// An attribute has its key and its text.
pub proof fn law_attribute(key: Seq<char>, s: Seq<char>)
    ensures
        member_at(attribute(key, s), "key"@) == Some(Json::String(key)),
        member_at(attribute(key, s), "value"@) is Some,
        member_at(member_at(attribute(key, s), "value"@).unwrap(), "stringValue"@) == Some(
            Json::String(s),
        ),
{
    reveal_strlit("key");
    reveal_strlit("value");
    assert("key"@.len() == 3 && "value"@.len() == 5);
    let a = seq![text_entry("key"@, key), ("value"@, string_value(s))];
    assert(a[0].0 == "key"@ && a[1].0 == "value"@);
    law_built_members(a, "key"@);
    law_built_members(a, "value"@);
    let b = seq![text_entry("stringValue"@, s)];
    assert(b[0].0 == "stringValue"@);
    law_built_members(b, "stringValue"@);
}

/// A log record tells the time, the level, the type of the event and its attributes.
pub proof fn law_log_record(e: MessageModel, service: Seq<char>, time: Option<i64>)
    ensures
        ({
            let r = log_json(e, service, time);
            &&& member_at(r, "timeUnixNano"@) == Some(
                Json::String(decimal_int(time_or_zero(time))),
            )
            &&& member_at(r, "severityText"@) == Some(Json::String("INFO"@))
            &&& member_at(r, "body"@) == Some(string_value(e.type_))
            &&& member_at(r, "attributes"@) == Some(
                Json::Array(attribute_values(event_attributes(e, Some(service), true))),
            )
        }),
{
    reveal_strlit("timeUnixNano");
    reveal_strlit("severityText");
    reveal_strlit("body");
    reveal_strlit("attributes");
    assert("timeUnixNano"@.len() == 12 && "severityText"@.len() == 12 && "body"@.len() == 4);
    assert("attributes"@.len() == 10);
    assert("severityText"@[0] != "timeUnixNano"@[0]);
    let a = seq![
        text_entry("timeUnixNano"@, decimal_int(time_or_zero(time))),
        text_entry("severityText"@, "INFO"@),
        ("body"@, string_value(e.type_)),
        (
            "attributes"@,
            Json::Array(attribute_values(event_attributes(e, Some(service), true))),
        ),
    ];
    assert(a[0].0 == "timeUnixNano"@);
    assert(a[1].0 == "severityText"@);
    assert(a[2].0 == "body"@);
    assert(a[3].0 == "attributes"@);
    law_built_members(a, "timeUnixNano"@);
    law_built_members(a, "severityText"@);
    law_built_members(a, "body"@);
    law_built_members(a, "attributes"@);
}

/// A span tells its identities, the type of the event, its time as start and end, and
/// its status.
pub proof fn law_span(
    e: MessageModel,
    time: Option<i64>,
    trace_id: Seq<char>,
    span_id: Seq<char>,
)
    ensures
        ({
            let s = span_json(e, time, trace_id, span_id);
            let nanos = Json::String(decimal(time_from_zero(time) as nat));
            let code = member_at(member_at(s, "status"@).unwrap(), "code"@);
            &&& member_at(s, "traceId"@) == Some(Json::String(trace_id))
            &&& member_at(s, "spanId"@) == Some(Json::String(span_id))
            &&& member_at(s, "name"@) == Some(Json::String(e.type_))
            &&& member_at(s, "startTimeUnixNano"@) == Some(nanos)
            &&& member_at(s, "endTimeUnixNano"@) == Some(nanos)
            &&& member_at(s, "status"@) is Some
            &&& code == Some(Json::Number(Number::PosInt(status_code(e.type_) as u64)))
            &&& member_at(s, "attributes"@) == Some(
                Json::Array(attribute_values(event_attributes(e, None, true))),
            )
        }),
{
    reveal_strlit("traceId");
    reveal_strlit("spanId");
    reveal_strlit("name");
    reveal_strlit("kind");
    reveal_strlit("startTimeUnixNano");
    reveal_strlit("endTimeUnixNano");
    reveal_strlit("attributes");
    reveal_strlit("status");
    assert("traceId"@.len() == 7 && "spanId"@.len() == 6 && "name"@.len() == 4);
    assert("kind"@.len() == 4 && "startTimeUnixNano"@.len() == 17);
    assert("endTimeUnixNano"@.len() == 15);
    assert("attributes"@.len() == 10 && "status"@.len() == 6);
    assert("kind"@[0] != "name"@[0]);
    assert("status"@[1] != "spanId"@[1]);
    let status = seq![("code"@, Json::Number(Number::PosInt(status_code(e.type_) as u64)))];
    assert(status[0].0 == "code"@);
    law_built_members(status, "code"@);
    let a = seq![
        text_entry("traceId"@, trace_id),
        text_entry("spanId"@, span_id),
        text_entry("name"@, e.type_),
        ("kind"@, Json::Number(Number::PosInt(1))),
        text_entry("startTimeUnixNano"@, decimal(time_from_zero(time) as nat)),
        text_entry("endTimeUnixNano"@, decimal(time_from_zero(time) as nat)),
        ("attributes"@, Json::Array(attribute_values(event_attributes(e, None, true)))),
        ("status"@, object_of(status)),
    ];
    lemma_span_members(a);
}

/// The members of a span.
proof fn lemma_span_members(a: Seq<(Seq<char>, Json)>)
    requires
        a.len() == 8,
        a[0].0 == "traceId"@ && a[1].0 == "spanId"@ && a[2].0 == "name"@ && a[3].0 == "kind"@,
        a[4].0 == "startTimeUnixNano"@ && a[5].0 == "endTimeUnixNano"@,
        a[6].0 == "attributes"@ && a[7].0 == "status"@,
    ensures
        member_at(object_of(a), "traceId"@) == Some(a[0].1),
        member_at(object_of(a), "spanId"@) == Some(a[1].1),
        member_at(object_of(a), "name"@) == Some(a[2].1),
        member_at(object_of(a), "startTimeUnixNano"@) == Some(a[4].1),
        member_at(object_of(a), "endTimeUnixNano"@) == Some(a[5].1),
        member_at(object_of(a), "attributes"@) == Some(a[6].1),
        member_at(object_of(a), "status"@) == Some(a[7].1),
{
    reveal_strlit("traceId");
    reveal_strlit("spanId");
    reveal_strlit("name");
    reveal_strlit("kind");
    reveal_strlit("startTimeUnixNano");
    reveal_strlit("endTimeUnixNano");
    reveal_strlit("attributes");
    reveal_strlit("status");
    assert("traceId"@.len() == 7 && "spanId"@.len() == 6 && "name"@.len() == 4);
    assert("kind"@.len() == 4 && "startTimeUnixNano"@.len() == 17);
    assert("endTimeUnixNano"@.len() == 15);
    assert("attributes"@.len() == 10 && "status"@.len() == 6);
    assert("kind"@[0] != "name"@[0]);
    assert("status"@[1] != "spanId"@[1]);
    law_built_members(a, "traceId"@);
    law_built_members(a, "spanId"@);
    law_built_members(a, "name"@);
    law_built_members(a, "kind"@);
    law_built_members(a, "startTimeUnixNano"@);
    law_built_members(a, "endTimeUnixNano"@);
    law_built_members(a, "attributes"@);
    law_built_members(a, "status"@);
}

/// A counter is reported with its name and its value, as a sum that only grows.
pub proof fn law_counter_metric(name: Seq<char>, count: i64, time: u64)
    ensures
        ({
            let m = counter_json(name, count, time);
            let sum = member_at(m, "sum"@).unwrap();
            let points = member_at(sum, "dataPoints"@).unwrap();
            let point = points->Array_0[0];
            &&& member_at(m, "name"@) == Some(Json::String(name))
            &&& member_at(m, "unit"@) == Some(Json::String("1"@))
            &&& member_at(m, "sum"@) is Some
            &&& member_at(sum, "isMonotonic"@) == Some(Json::Bool(true))
            &&& member_at(sum, "aggregationTemporality"@) == Some(
                Json::Number(Number::PosInt(2)),
            )
            &&& member_at(sum, "dataPoints"@) is Some
            &&& points is Array && points->Array_0.len() == 1
            &&& member_at(point, "asInt"@) == Some(Json::String(decimal_int(count as int)))
            &&& member_at(point, "timeUnixNano"@) == Some(Json::String(decimal(time as nat)))
        }),
{
    reveal_strlit("name");
    reveal_strlit("unit");
    reveal_strlit("sum");
    assert("name"@.len() == 4 && "unit"@.len() == 4 && "sum"@.len() == 3);
    assert("unit"@[0] != "name"@[0]);
    reveal_strlit("aggregationTemporality");
    reveal_strlit("isMonotonic");
    reveal_strlit("dataPoints");
    assert("aggregationTemporality"@.len() == 22 && "isMonotonic"@.len() == 11);
    assert("dataPoints"@.len() == 10);
    reveal_strlit("asInt");
    reveal_strlit("timeUnixNano");
    assert("asInt"@.len() == 5 && "timeUnixNano"@.len() == 12);
    let p = seq![
        text_entry("asInt"@, decimal_int(count as int)),
        text_entry("timeUnixNano"@, decimal(time as nat)),
    ];
    assert(p[0].0 == "asInt"@);
    assert(p[1].0 == "timeUnixNano"@);
    law_built_members(p, "asInt"@);
    law_built_members(p, "timeUnixNano"@);
    let d = seq![
        ("aggregationTemporality"@, Json::Number(Number::PosInt(2))),
        ("isMonotonic"@, Json::Bool(true)),
        ("dataPoints"@, singleton(object_of(p))),
    ];
    assert(d[0].0 == "aggregationTemporality"@);
    assert(d[1].0 == "isMonotonic"@);
    assert(d[2].0 == "dataPoints"@);
    law_built_members(d, "aggregationTemporality"@);
    law_built_members(d, "isMonotonic"@);
    law_built_members(d, "dataPoints"@);
    let a = seq![
        text_entry("name"@, name),
        text_entry("unit"@, "1"@),
        ("sum"@, object_of(d)),
    ];
    assert(a[0].0 == "name"@);
    assert(a[1].0 == "unit"@);
    assert(a[2].0 == "sum"@);
    law_built_members(a, "name"@);
    law_built_members(a, "unit"@);
    law_built_members(a, "sum"@);
}

/// A data point of a histogram tells the number of samples, their sum, the count of each
/// bucket and the bounds between them.
pub proof fn law_histogram_point(s: Seq<u64>, time: u64)
    ensures
        ({
            let p = histogram_point(s, time);
            &&& member_at(p, "count"@) == Some(Json::String(decimal(s.len())))
            &&& member_at(p, "sum"@) == Some(float_json(samples_sum(s)))
            &&& member_at(p, "bucketCounts"@) == Some(
                Json::Array(
                    Seq::new(9, |i: int| Json::String(decimal(bucket_count(s, i)))),
                ),
            )
            &&& member_at(p, "explicitBounds"@) is Some
            &&& member_at(p, "timeUnixNano"@) == Some(Json::String(decimal(time as nat)))
        }),
{
    reveal_strlit("count");
    reveal_strlit("sum");
    reveal_strlit("bucketCounts");
    reveal_strlit("explicitBounds");
    reveal_strlit("timeUnixNano");
    assert("count"@.len() == 5 && "sum"@.len() == 3 && "bucketCounts"@.len() == 12);
    assert("explicitBounds"@.len() == 14 && "timeUnixNano"@.len() == 12);
    assert("timeUnixNano"@[0] != "bucketCounts"@[0]);
    let a = seq![
        text_entry("count"@, decimal(s.len())),
        ("sum"@, float_json(samples_sum(s))),
        ("bucketCounts"@, Json::Array(bucket_values(s, 9))),
        ("explicitBounds"@, Json::Array(bound_values(8))),
        text_entry("timeUnixNano"@, decimal(time as nat)),
    ];
    assert(a[0].0 == "count"@);
    assert(a[1].0 == "sum"@);
    assert(a[2].0 == "bucketCounts"@);
    assert(a[3].0 == "explicitBounds"@);
    assert(a[4].0 == "timeUnixNano"@);
    law_built_members(a, "count"@);
    law_built_members(a, "sum"@);
    law_built_members(a, "bucketCounts"@);
    law_built_members(a, "explicitBounds"@);
    law_built_members(a, "timeUnixNano"@);
    assert(bucket_values(s, 9) =~= Seq::new(
        9,
        |i: int| Json::String(decimal(bucket_count(s, i))),
    ));
}

} // verus!
