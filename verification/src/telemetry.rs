//! Lifecycle events as OpenTelemetry logs, traces and metrics.
use crate::builder::{Builder, object_of, one_item, singleton, text_entry};
use crate::dict::{
    Dict, Entries, entry, entry_views, lemma_view_of_entry, lemma_view_of_set, lemma_with_entry,
    list_entries, with_entry,
};
use crate::double::{
    SIGN, equals, finite, from_int, from_u64, is_finite, plus, precedes, same, sum,
};
use crate::error::{ErrorKind, StandardErrorType, WorkflowError, is_error};
use crate::json::{Json, Number, Value, jsons};
use crate::service::{EventMessage, MessageModel};
use crate::text::{
    chars_of, concat2, concat3, concat5, contains, decimal, decimal_int, digit_char, hex16,
    hex16_text, i64_text, occurs, pow16, string_of, u64_text, usize_text,
};
use crate::value::{json_text, write_json};
use vstd::prelude::*;

verus! {

broadcast use crate::json::group_json;

/// The endpoint for logs of a local collector.
pub const DEFAULT_OTLP_LOGS_ENDPOINT: &'static str = "http://localhost:4318/v1/logs";

/// The endpoint for traces of a local collector.
pub const DEFAULT_OTLP_TRACES_ENDPOINT: &'static str = "http://localhost:4318/v1/traces";

/// The endpoint for metrics of a local collector.
pub const DEFAULT_OTLP_METRICS_ENDPOINT: &'static str = "http://localhost:4318/v1/metrics";

/// The endpoint for gRPC of a local collector.
pub const DEFAULT_OTLP_GRPC_ENDPOINT: &'static str = "http://localhost:4317";

/// The upper bounds of the duration buckets in milliseconds.
pub const DURATION_BUCKET_BOUNDS_MS: [u64; 8] = [1, 5, 10, 50, 100, 500, 1000, 5000];

// ---------------------------------------------------------------------------
// Outside results
// ---------------------------------------------------------------------------

/// The nanoseconds since the epoch that a text in RFC 3339 notation denotes.
pub uninterp spec fn rfc3339_nanos(s: Seq<char>) -> Option<i64>;

/// Trusted: `chrono::DateTime::parse_from_rfc3339` reads a time, and
/// `timestamp_nanos_opt` gives its nanoseconds where they fit. Which texts are
/// times is not stated; the result depends on the text alone.
#[verifier::external_body]
fn parse_time(text: &str) -> (r: Option<i64>)
    ensures
        r == rfc3339_nanos(text@),
{
    chrono::DateTime::parse_from_rfc3339(text).ok().and_then(|dt| dt.timestamp_nanos_opt())
}

/// The hash of a number and a text by the standard hasher.
pub uninterp spec fn hash_word(counter: u64, seed: Seq<char>) -> u64;

/// Trusted: the hash that `std::collections::hash_map::DefaultHasher` gives, with
/// its fixed initial state, for the bytes of a number, lowest first, and a text.
/// Which hash it is is not stated; it depends on the two alone.
#[verifier::external_body]
fn hash_of(counter: u64, seed: &str) -> (r: u64)
    ensures
        r == hash_word(counter, seed@),
{
    let mut hasher = std::collections::hash_map::DefaultHasher::new();
    std::hash::Hash::hash(&counter.to_le(), &mut hasher);
    std::hash::Hash::hash(seed, &mut hasher);
    std::hash::Hasher::finish(&hasher)
}

// ---------------------------------------------------------------------------
// Identities
// ---------------------------------------------------------------------------

/// The hexadecimal digits of words, one word after the other.
pub open spec fn word_digits(words: Seq<u64>, n: nat) -> Seq<char> {
    Seq::new(n, |i: int| hex16(words[i / 16])[i % 16])
}

/// Whether a text holds zeros only.
pub open spec fn all_zero(s: Seq<char>) -> bool {
    forall|i: int| 0 <= i < s.len() ==> #[trigger] s[i] == '0'
}

/// The identity of so many bytes that words give. It is never zero.
pub open spec fn id_of_words(words: Seq<u64>, bytes: nat) -> Seq<char> {
    let s = word_digits(words, 2 * bytes);
    if all_zero(s) {
        s.update(0, '1')
    } else {
        s
    }
}

/// The number of words for an identity of so many bytes.
pub open spec fn words_for(bytes: nat) -> nat {
    (2 * bytes + 15) / 16
}

/// The first hashes of a seed.
pub open spec fn hash_words(seed: Seq<char>, count: nat) -> Seq<u64> {
    Seq::new(count, |k: int| hash_word(k as u64, seed))
}

/// The identity of so many bytes for a seed.
pub open spec fn hex_id(seed: Seq<char>, bytes: nat) -> Seq<char> {
    id_of_words(hash_words(seed, words_for(bytes)), bytes)
}

/// Whether a text holds lower-case hexadecimal digits only.
pub open spec fn is_hex(s: Seq<char>) -> bool {
    forall|i: int| 0 <= i < s.len() ==> is_hex_digit(#[trigger] s[i])
}

/// Whether a character is a lower-case hexadecimal digit.
pub open spec fn is_hex_digit(c: char) -> bool {
    '0' <= c <= '9' || 'a' <= c <= 'f'
}

/// The value of a lower-case hexadecimal digit.
pub open spec fn hex_digit_value(c: char) -> nat {
    if '0' <= c <= '9' {
        ((c as u32) - ('0' as u32)) as nat
    } else {
        ((c as u32) - ('a' as u32) + 10) as nat
    }
}

/// An identity has two hexadecimal digits for each byte, and is not zero.
pub proof fn law_hex_id(words: Seq<u64>, bytes: nat)
    requires
        bytes > 0,
        words.len() >= words_for(bytes),
    ensures
        id_of_words(words, bytes).len() == 2 * bytes,
        is_hex(id_of_words(words, bytes)),
        !all_zero(id_of_words(words, bytes)),
{
    let s = word_digits(words, 2 * bytes);
    let id = id_of_words(words, bytes);
    assert forall|i: int| 0 <= i < s.len() implies is_hex_digit(#[trigger] s[i]) by {
        let word = words[i / 16];
        let d = ((word as nat) / pow16((15 - i % 16) as nat)) % 16;
        assert(s[i] == digit_char(d));
    }
    assert forall|i: int| 0 <= i < id.len() implies is_hex_digit(#[trigger] id[i]) by {
        assert(is_hex_digit(s[i]));
    }
    if all_zero(s) {
        assert(id[0] == '1');
    }
}

/// Writes the identity that words give.
pub fn id_from_words(words: &Vec<u64>, bytes: usize) -> (r: String)
    requires
        0 < bytes <= usize::MAX / 2,
        words@.len() >= words_for(bytes as nat),
    ensures
        r@ == id_of_words(words@, bytes as nat),
{
    let n = 2 * bytes;
    let mut digits: Vec<char> = Vec::new();
    let mut at: usize = 0;
    while digits.len() < n
        invariant
            n == 2 * bytes,
            words@.len() >= words_for(bytes as nat),
            digits.len() <= n,
            digits.len() == (if 16 * at <= n {
                16 * at
            } else {
                n as int
            }),
            digits@ == word_digits(words@, digits@.len()),
        decreases n - digits.len(),
    {
        let text = hex16_text(words[at]);
        let part = chars_of(text.as_str());
        let mut k: usize = 0;
        let ghost base = digits@.len();
        while k < 16 && digits.len() < n
            invariant
                k <= 16,
                n == 2 * bytes,
                part@ == hex16(words@[at as int]),
                base == 16 * at,
                digits@.len() == base + k,
                digits.len() <= n,
                digits@ == word_digits(words@, digits@.len()),
            decreases 16 - k,
        {
            digits.push(part[k]);
            proof {
                let i = (base + k) as int;
                assert(i / 16 == at && i % 16 == k);
                assert(word_digits(words@, (i + 1) as nat) =~= word_digits(words@, i as nat).push(
                    part@[k as int],
                ));
            }
            k += 1;
        }
        at = at + 1;
    }
    let mut zero = true;
    let mut i: usize = 0;
    while i < n
        invariant
            i <= n,
            n == 2 * bytes,
            digits@ == word_digits(words@, n as nat),
            zero == (forall|j: int| 0 <= j < i ==> #[trigger] digits@[j] == '0'),
        decreases n - i,
    {
        if digits[i] != '0' {
            zero = false;
        }
        i += 1;
    }
    if zero {
        digits.set(0, '1');
    }
    let out = string_of(&digits, 0, n);
    assert(out@ =~= id_of_words(words@, bytes as nat));
    out
}

/// Derives an identity from a seed.
pub fn hash_hex(seed: &str, bytes: usize) -> (r: String)
    requires
        0 < bytes <= usize::MAX / 2,
    ensures
        r@ == hex_id(seed@, bytes as nat),
{
    let n = 2 * bytes;
    let count = if n % 16 == 0 {
        n / 16
    } else {
        n / 16 + 1
    };
    let mut words: Vec<u64> = Vec::new();
    assert(words@ =~= hash_words(seed@, 0));
    while words.len() < count
        invariant
            words.len() <= count,
            words@ == hash_words(seed@, words@.len()),
        decreases count - words.len(),
    {
        let at = words.len();
        words.push(hash_of(at as u64, seed));
        assert(words@ =~= hash_words(seed@, words@.len()));
    }
    id_from_words(&words, bytes)
}

/// The bytes that hexadecimal digits denote, two digits each.
pub open spec fn hex_values(hex: Seq<char>) -> Seq<u8> {
    Seq::new(
        hex.len() / 2,
        |i: int| (16 * hex_digit_value(hex[2 * i]) + hex_digit_value(hex[2 * i + 1])) as u8,
    )
}

/// The bytes of an identity.
pub open spec fn id_bytes(seed: Seq<char>, bytes: nat) -> Seq<u8> {
    hex_values(hex_id(seed, bytes))
}

/// The value of a lower-case hexadecimal digit.
fn digit_bits(c: char) -> (r: u8)
    requires
        is_hex_digit(c),
    ensures
        r == hex_digit_value(c),
        r < 16,
{
    if '0' <= c && c <= '9' {
        (c as u8) - 48
    } else {
        (c as u8) - 87
    }
}

/// Reads hexadecimal digits, two for each byte.
pub fn read_hex(hex: &str) -> (r: Vec<u8>)
    requires
        is_hex(hex@),
        hex@.len() % 2 == 0,
    ensures
        r@ == hex_values(hex@),
{
    let chars = chars_of(hex);
    let len = chars.len();
    let n = len / 2;
    let mut out: Vec<u8> = Vec::new();
    let mut i: usize = 0;
    while i < n
        invariant
            i <= n,
            chars@ == hex@,
            chars@.len() == len,
            len == 2 * n,
            is_hex(chars@),
            out@ == hex_values(hex@).take(i as int),
        decreases n - i,
    {
        let high = digit_bits(chars[2 * i]);
        let low = digit_bits(chars[2 * i + 1]);
        out.push(16 * high + low);
        assert(hex_values(hex@).take(i + 1) =~= hex_values(hex@).take(i as int).push(
            (16 * high + low) as u8,
        ));
        i += 1;
    }
    assert(hex_values(hex@).take(n as int) =~= hex_values(hex@));
    out
}

/// Derives the bytes of an identity from a seed.
pub fn hex_bytes(seed: &str, bytes: usize) -> (r: Vec<u8>)
    requires
        0 < bytes <= usize::MAX / 2,
    ensures
        r@ == id_bytes(seed@, bytes as nat),
{
    let hex = hash_hex(seed, bytes);
    proof {
        law_hex_id(hash_words(seed@, words_for(bytes as nat)), bytes as nat);
    }
    read_hex(hex.as_str())
}

// ---------------------------------------------------------------------------
// What events say
// ---------------------------------------------------------------------------

/// The time of an event in nanoseconds, if it has one that can be read.
pub open spec fn event_time(e: MessageModel) -> Option<i64> {
    match e.time {
        Some(t) => rfc3339_nanos(t),
        None => None,
    }
}

/// A time in nanoseconds; zero where there is none.
pub open spec fn time_or_zero(time: Option<i64>) -> int {
    match time {
        Some(n) => n as int,
        None => 0,
    }
}

/// A time in nanoseconds that are not negative.
pub open spec fn time_from_zero(time: Option<i64>) -> int {
    if time_or_zero(time) < 0 {
        0
    } else {
        time_or_zero(time)
    }
}

/// Whether an event reports an error.
pub open spec fn is_errored(type_: Seq<char>) -> bool {
    occurs(type_, "faulted"@) || occurs(type_, "cancelled"@) || occurs(type_, "failed"@)
}

/// The status code of a span: one for success, two for an error.
pub open spec fn status_code(type_: Seq<char>) -> int {
    if is_errored(type_) {
        2
    } else {
        1
    }
}

/// The seed of the trace that an event belongs to.
pub open spec fn trace_seed(e: MessageModel) -> Seq<char> {
    e.source + "/"@ + match e.subject {
        Some(s) => s,
        None => Seq::empty(),
    }
}

/// Reads the time of an event.
pub fn read_time(event: &EventMessage) -> (r: Option<i64>)
    ensures
        r == event_time(event@),
{
    match &event.time {
        Some(t) => parse_time(t.as_str()),
        None => None,
    }
}

/// Turns a time into nanoseconds that are not negative.
pub fn clamp_time(time: Option<i64>) -> (r: u64)
    ensures
        r == time_from_zero(time),
{
    match time {
        Some(n) => if n < 0 {
            0
        } else {
            n as u64
        },
        None => 0,
    }
}

/// Reads the time of an event as nanoseconds that are not negative.
pub fn event_time_nanos(event: &EventMessage) -> (r: u64)
    ensures
        r == time_from_zero(event_time(event@)),
{
    clamp_time(read_time(event))
}

/// Decides whether an event reports an error.
fn errored(event: &EventMessage) -> (r: bool)
    ensures
        r == is_errored(event@.type_),
{
    let t = event.type_.as_str();
    contains(t, "faulted") || contains(t, "cancelled") || contains(t, "failed")
}

/// The seed of the trace that an event belongs to.
fn read_trace_seed(event: &EventMessage) -> (r: String)
    ensures
        r@ == trace_seed(event@),
{
    let subject = match &event.subject {
        Some(s) => s.clone(),
        None => String::new(),
    };
    concat3(event.source.as_str(), "/", subject.as_str())
}

// ---------------------------------------------------------------------------
// JSON requests
// ---------------------------------------------------------------------------

/// A text as an attribute value.
pub open spec fn string_value(s: Seq<char>) -> Json {
    object_of(seq![text_entry("stringValue"@, s)])
}

/// An attribute with a text.
pub open spec fn attribute(key: Seq<char>, s: Seq<char>) -> Json {
    object_of(seq![text_entry("key"@, key), ("value"@, string_value(s))])
}

/// The optional attributes of an event: its subject and its data.
pub open spec fn more_attributes(e: MessageModel, with_subject: bool) -> Seq<
    (Seq<char>, Seq<char>),
> {
    (match e.subject {
        Some(s) => if with_subject {
            seq![("event.subject"@, s)]
        } else {
            Seq::empty()
        },
        None => Seq::empty(),
    }) + (match e.data {
        Some(d) => seq![("event.data"@, json_text(d))],
        None => Seq::empty(),
    })
}

/// The attributes of an event.
pub open spec fn event_attributes(e: MessageModel, service: Option<Seq<char>>, subject: bool)
    -> Seq<(Seq<char>, Seq<char>)> {
    seq![("event.id"@, e.id), ("event.source"@, e.source), ("event.type"@, e.type_)] + (
    match service {
        Some(s) => seq![("service.name"@, s)],
        None => Seq::empty(),
    }) + more_attributes(e, subject)
}

/// Attributes as values.
pub open spec fn attribute_values(attributes: Seq<(Seq<char>, Seq<char>)>) -> Seq<Json> {
    attributes.map_values(|a: (Seq<char>, Seq<char>)| attribute(a.0, a.1))
}

/// The resource of a service.
pub open spec fn resource_of(service: Seq<char>) -> Json {
    object_of(seq![("attributes"@, singleton(attribute("service.name"@, service)))])
}

/// The scope of the runtime.
pub open spec fn scope_of() -> Json {
    object_of(seq![text_entry("name"@, "ows-runtime"@)])
}

/// A request: its items under the scope of the runtime and the resource of a
/// service.
pub open spec fn request_of(
    outer: Seq<char>,
    inner: Seq<char>,
    name: Seq<char>,
    service: Seq<char>,
    items: Seq<Json>,
) -> Json {
    object_of(
        seq![
            (
                outer,
                singleton(
                    object_of(
                        seq![
                            ("resource"@, resource_of(service)),
                            (
                                inner,
                                singleton(
                                    object_of(
                                        seq![("scope"@, scope_of()), (name, Json::Array(items))],
                                    ),
                                ),
                            ),
                        ],
                    ),
                ),
            ),
        ],
    )
}

/// A log record of an event at a time.
pub open spec fn log_json(e: MessageModel, service: Seq<char>, time: Option<i64>) -> Json {
    object_of(
        seq![
            text_entry("timeUnixNano"@, decimal_int(time_or_zero(time))),
            text_entry("severityText"@, "INFO"@),
            ("body"@, string_value(e.type_)),
            (
                "attributes"@,
                Json::Array(attribute_values(event_attributes(e, Some(service), true))),
            ),
        ],
    )
}

/// A span of an event at a time, with its identities.
pub open spec fn span_json(
    e: MessageModel,
    time: Option<i64>,
    trace_id: Seq<char>,
    span_id: Seq<char>,
) -> Json {
    object_of(
        seq![
            text_entry("traceId"@, trace_id),
            text_entry("spanId"@, span_id),
            text_entry("name"@, e.type_),
            ("kind"@, Json::Number(Number::PosInt(1))),
            text_entry("startTimeUnixNano"@, decimal(time_from_zero(time) as nat)),
            text_entry("endTimeUnixNano"@, decimal(time_from_zero(time) as nat)),
            ("attributes"@, Json::Array(attribute_values(event_attributes(e, None, true)))),
            (
                "status"@,
                object_of(
                    seq![("code"@, Json::Number(Number::PosInt(status_code(e.type_) as u64)))],
                ),
            ),
        ],
    )
}

/// Attributes as pairs of texts.
pub open spec fn pair_views(pairs: Seq<(String, String)>) -> Seq<(Seq<char>, Seq<char>)> {
    pairs.map_values(|p: (String, String)| (p.0@, p.1@))
}

/// Appends an attribute.
fn push_pair(pairs: &mut Vec<(String, String)>, key: &str, s: &str)
    ensures
        pair_views(final(pairs)@) == pair_views(old(pairs)@).push((key@, s@)),
{
    let ghost before = pairs@;
    pairs.push((key.to_owned(), s.to_owned()));
    assert(pair_views(pairs@) =~= pair_views(before).push((key@, s@)));
}

/// The attributes of an event.
fn read_attributes(event: &EventMessage, service: Option<&str>, subject: bool) -> (r: Vec<
    (String, String),
>)
    ensures
        pair_views(r@) == event_attributes(
            event@,
            match service {
                Some(s) => Some(s@),
                None => None,
            },
            subject,
        ),
{
    let mut out: Vec<(String, String)> = Vec::new();
    push_pair(&mut out, "event.id", event.id.as_str());
    push_pair(&mut out, "event.source", event.source.as_str());
    push_pair(&mut out, "event.type", event.type_.as_str());
    match service {
        Some(s) => push_pair(&mut out, "service.name", s),
        None => {},
    }
    match &event.subject {
        Some(s) => {
            if subject {
                push_pair(&mut out, "event.subject", s.as_str());
            }
        },
        None => {},
    }
    match &event.data {
        Some(d) => {
            let text = write_json(d);
            push_pair(&mut out, "event.data", text.as_str());
        },
        None => {},
    }
    assert(pair_views(out@) =~= event_attributes(
        event@,
        match service {
            Some(s) => Some(s@),
            None => None,
        },
        subject,
    ));
    out
}

/// A text as an attribute value.
fn text_value(s: &str) -> (r: Value)
    ensures
        r@ == string_value(s@),
{
    let b = Builder::new().with_text("stringValue", s);
    assert(b.entries@ =~= seq![text_entry("stringValue"@, s@)]);
    b.done()
}

/// An attribute with a text.
fn attribute_value(key: &str, s: &str) -> (r: Value)
    ensures
        r@ == attribute(key@, s@),
{
    let b = Builder::new().with_text("key", key).with("value", text_value(s));
    assert(b.entries@ =~= seq![text_entry("key"@, key@), ("value"@, string_value(s@))]);
    b.done()
}

/// Attributes as a value.
fn attributes_value(pairs: &Vec<(String, String)>) -> (r: Value)
    ensures
        r@ == Json::Array(attribute_values(pair_views(pairs@))),
{
    let ghost m = pair_views(pairs@);
    let mut out: Vec<Value> = Vec::new();
    let mut i: usize = 0;
    assert(jsons(out@) =~= attribute_values(m.take(0)));
    while i < pairs.len()
        invariant
            i <= pairs.len(),
            m == pair_views(pairs@),
            jsons(out@) == attribute_values(m.take(i as int)),
        decreases pairs.len() - i,
    {
        out.push(attribute_value(pairs[i].0.as_str(), pairs[i].1.as_str()));
        assert(attribute_values(m.take(i + 1)) =~= attribute_values(m.take(i as int)).push(
            attribute(m[i as int].0, m[i as int].1),
        ));
        i += 1;
    }
    assert(m.take(pairs.len() as int) =~= m);
    Value::Array(out)
}

/// A request.
fn build_request(outer: &str, inner: &str, name: &str, service: &str, items: Vec<Value>) -> (r:
    Value)
    ensures
        r@ == request_of(outer@, inner@, name@, service@, jsons(items@)),
{
    let resource = Builder::new().with(
        "attributes",
        one_item(attribute_value("service.name", service)),
    );
    assert(resource.entries@ =~= seq![
        ("attributes"@, singleton(attribute("service.name"@, service@))),
    ]);
    let scope = Builder::new().with_text("name", "ows-runtime");
    assert(scope.entries@ =~= seq![text_entry("name"@, "ows-runtime"@)]);
    let scoped = Builder::new().with("scope", scope.done()).with(name, Value::Array(items));
    assert(scoped.entries@ =~= seq![
        ("scope"@, scope_of()),
        (name@, Json::Array(jsons(items@))),
    ]);
    let body = Builder::new().with("resource", resource.done()).with(
        inner,
        one_item(scoped.done()),
    );
    assert(body.entries@ =~= seq![
        ("resource"@, resource_of(service@)),
        (
            inner@,
            singleton(
                object_of(
                    seq![("scope"@, scope_of()), (name@, Json::Array(jsons(items@)))],
                ),
            ),
        ),
    ]);
    let whole = Builder::new().with(outer, one_item(body.done()));
    assert(whole.entries@ =~= seq![(outer@, singleton(object_of(body.entries@)))]);
    whole.done()
}

/// A list of one value.
fn just(v: Value) -> (r: Vec<Value>)
    ensures
        jsons(r@) == seq![v@],
{
    let mut out: Vec<Value> = Vec::new();
    out.push(v);
    assert(jsons(out@) =~= seq![v@]);
    out
}

/// The request for a log record of an event at a time.
pub fn log_request_at(event: &EventMessage, service_name: &str, time: Option<i64>) -> (r: Value)
    ensures
        r@ == request_of(
            "resourceLogs"@,
            "scopeLogs"@,
            "logRecords"@,
            service_name@,
            seq![log_json(event@, service_name@, time)],
        ),
{
    let nanos = match time {
        Some(n) => i64_text(n),
        None => i64_text(0),
    };
    let pairs = read_attributes(event, Some(service_name), true);
    let record = Builder::new().with_text("timeUnixNano", nanos.as_str()).with_text(
        "severityText",
        "INFO",
    ).with("body", text_value(event.type_.as_str())).with("attributes", attributes_value(&pairs));
    assert(record.entries@ =~= seq![
        text_entry("timeUnixNano"@, decimal_int(time_or_zero(time))),
        text_entry("severityText"@, "INFO"@),
        ("body"@, string_value(event@.type_)),
        (
            "attributes"@,
            Json::Array(attribute_values(event_attributes(event@, Some(service_name@), true))),
        ),
    ]);
    build_request("resourceLogs", "scopeLogs", "logRecords", service_name, just(record.done()))
}

/// The request that exports an event as a log record.
pub fn encode_log_request(event: &EventMessage, service_name: &str) -> (r: Value)
    ensures
        r@ == request_of(
            "resourceLogs"@,
            "scopeLogs"@,
            "logRecords"@,
            service_name@,
            seq![log_json(event@, service_name@, event_time(event@))],
        ),
{
    log_request_at(event, service_name, read_time(event))
}

/// The request for a span of an event at a time, with its identities.
pub fn trace_request_at(
    event: &EventMessage,
    service_name: &str,
    time: Option<i64>,
    trace_id: &str,
    span_id: &str,
) -> (r: Value)
    ensures
        r@ == request_of(
            "resourceSpans"@,
            "scopeSpans"@,
            "spans"@,
            service_name@,
            seq![span_json(event@, time, trace_id@, span_id@)],
        ),
{
    let nanos = u64_text(clamp_time(time));
    let pairs = read_attributes(event, None, true);
    let code: u64 = if errored(event) {
        2
    } else {
        1
    };
    let status = Builder::new().with("code", Value::Number(Number::PosInt(code)));
    assert(status.entries@ =~= seq![
        ("code"@, Json::Number(Number::PosInt(status_code(event@.type_) as u64))),
    ]);
    let span = Builder::new().with_text("traceId", trace_id).with_text("spanId", span_id).with_text(
        "name",
        event.type_.as_str(),
    ).with("kind", Value::Number(Number::PosInt(1))).with_text(
        "startTimeUnixNano",
        nanos.as_str(),
    ).with_text("endTimeUnixNano", nanos.as_str()).with(
        "attributes",
        attributes_value(&pairs),
    ).with("status", status.done());
    assert(span.entries@ =~= seq![
        text_entry("traceId"@, trace_id@),
        text_entry("spanId"@, span_id@),
        text_entry("name"@, event@.type_),
        ("kind"@, Json::Number(Number::PosInt(1))),
        text_entry("startTimeUnixNano"@, decimal(time_from_zero(time) as nat)),
        text_entry("endTimeUnixNano"@, decimal(time_from_zero(time) as nat)),
        ("attributes"@, Json::Array(attribute_values(event_attributes(event@, None, true)))),
        (
            "status"@,
            object_of(
                seq![("code"@, Json::Number(Number::PosInt(status_code(event@.type_) as u64)))],
            ),
        ),
    ]);
    build_request("resourceSpans", "scopeSpans", "spans", service_name, just(span.done()))
}

/// The request that exports an event as a span.
pub fn encode_trace_request(event: &EventMessage, service_name: &str) -> (r: Value)
    ensures
        r@ == request_of(
            "resourceSpans"@,
            "scopeSpans"@,
            "spans"@,
            service_name@,
            seq![
                span_json(
                    event@,
                    event_time(event@),
                    hex_id(trace_seed(event@), 16),
                    hex_id(event@.id, 8),
                ),
            ],
        ),
{
    let seed = read_trace_seed(event);
    let trace_id = hash_hex(seed.as_str(), 16);
    let span_id = hash_hex(event.id.as_str(), 8);
    trace_request_at(event, service_name, read_time(event), trace_id.as_str(), span_id.as_str())
}

// ---------------------------------------------------------------------------
// Records for gRPC
// ---------------------------------------------------------------------------

/// A log record.
#[derive(Debug)]
pub struct LogRecord {
    pub time_unix_nano: u64,
    pub observed_time_unix_nano: u64,
    pub severity_text: String,
    pub body: String,
    pub attributes: Vec<(String, String)>,
}

/// A span.
#[derive(Debug)]
pub struct Span {
    pub trace_id: Vec<u8>,
    pub span_id: Vec<u8>,
    pub name: String,
    pub kind: i32,
    pub start_time_unix_nano: u64,
    pub end_time_unix_nano: u64,
    pub attributes: Vec<(String, String)>,
    pub status_code: i32,
}

/// Items under a scope and a service.
#[derive(Debug)]
pub struct ExportRequest<T> {
    pub service_name: String,
    pub scope_name: String,
    pub items: Vec<T>,
}

/// Puts one item under the scope of the runtime and a service.
fn export_one<T>(item: T, service_name: &str) -> (r: ExportRequest<T>)
    ensures
        r.service_name@ == service_name@,
        r.scope_name@ == "ows-runtime"@,
        r.items@ == seq![item],
{
    let mut items: Vec<T> = Vec::new();
    items.push(item);
    assert(items@ =~= seq![item]);
    ExportRequest {
        service_name: service_name.to_owned(),
        scope_name: "ows-runtime".to_owned(),
        items,
    }
}

/// Whether a log record is that of an event at a time.
pub open spec fn is_log_of(r: LogRecord, e: MessageModel, time: Option<i64>) -> bool {
    &&& r.time_unix_nano == time_from_zero(time)
    &&& r.observed_time_unix_nano == time_from_zero(time)
    &&& r.severity_text@ == "INFO"@
    &&& r.body@ == e.type_
    &&& pair_views(r.attributes@) == event_attributes(e, None, true)
}

/// Whether a span is that of an event at a time, with its identities. The subject
/// is no attribute of it.
pub open spec fn is_span_of(
    s: Span,
    e: MessageModel,
    time: Option<i64>,
    trace_id: Seq<u8>,
    span_id: Seq<u8>,
) -> bool {
    &&& s.trace_id@ == trace_id
    &&& s.span_id@ == span_id
    &&& s.name@ == e.type_
    &&& s.kind == 1
    &&& s.start_time_unix_nano == time_from_zero(time)
    &&& s.end_time_unix_nano == time_from_zero(time)
    &&& pair_views(s.attributes@) == event_attributes(e, None, false)
    &&& s.status_code == status_code(e.type_)
}

/// The log record of an event at a time.
pub fn log_record_at(event: &EventMessage, time: Option<i64>) -> (r: LogRecord)
    ensures
        is_log_of(r, event@, time),
{
    let nanos = clamp_time(time);
    LogRecord {
        time_unix_nano: nanos,
        observed_time_unix_nano: nanos,
        severity_text: "INFO".to_owned(),
        body: event.type_.clone(),
        attributes: read_attributes(event, None, true),
    }
}

/// The log record of an event.
pub fn log_record_from_event(event: &EventMessage) -> (r: LogRecord)
    ensures
        is_log_of(r, event@, event_time(event@)),
{
    log_record_at(event, read_time(event))
}

/// The request that exports an event as a log record.
pub fn logs_request(event: &EventMessage, service_name: &str) -> (r: ExportRequest<LogRecord>)
    ensures
        r.service_name@ == service_name@,
        r.scope_name@ == "ows-runtime"@,
        r.items@.len() == 1,
        is_log_of(r.items@[0], event@, event_time(event@)),
{
    export_one(log_record_from_event(event), service_name)
}

/// The span of an event at a time, with its identities.
pub fn span_at(
    event: &EventMessage,
    time: Option<i64>,
    trace_id: Vec<u8>,
    span_id: Vec<u8>,
) -> (r: Span)
    ensures
        is_span_of(r, event@, time, trace_id@, span_id@),
{
    let nanos = clamp_time(time);
    Span {
        trace_id,
        span_id,
        name: event.type_.clone(),
        kind: 1,
        start_time_unix_nano: nanos,
        end_time_unix_nano: nanos,
        attributes: read_attributes(event, None, false),
        status_code: if errored(event) {
            2
        } else {
            1
        },
    }
}

/// The span of an event.
pub fn span_from_event(event: &EventMessage) -> (r: Span)
    ensures
        is_span_of(
            r,
            event@,
            event_time(event@),
            id_bytes(trace_seed(event@), 16),
            id_bytes(event@.id, 8),
        ),
{
    let seed = read_trace_seed(event);
    let trace_id = hex_bytes(seed.as_str(), 16);
    let span_id = hex_bytes(event.id.as_str(), 8);
    span_at(event, read_time(event), trace_id, span_id)
}

/// The request that exports an event as a span.
pub fn traces_request(event: &EventMessage, service_name: &str) -> (r: ExportRequest<Span>)
    ensures
        r.service_name@ == service_name@,
        r.scope_name@ == "ows-runtime"@,
        r.items@.len() == 1,
        is_span_of(
            r.items@[0],
            event@,
            event_time(event@),
            id_bytes(trace_seed(event@), 16),
            id_bytes(event@.id, 8),
        ),
{
    export_one(span_from_event(event), service_name)
}

// ---------------------------------------------------------------------------
// Metrics
// ---------------------------------------------------------------------------

/// Counters and durations collected from events. A duration is the bits of a
/// double, in milliseconds.
#[derive(Debug)]
pub struct RuntimeMetrics {
    counters: Dict<i64>,
    durations: Dict<Vec<u64>>,
}

/// The samples of each duration.
pub open spec fn sample_views(m: Entries<Vec<u64>>) -> Seq<(Seq<char>, Seq<u64>)> {
    entry_views(m)
}

/// A counter; zero before it was counted.
pub open spec fn counter(m: Entries<i64>, name: Seq<char>) -> i64 {
    match entry(m, name) {
        Some(n) => n,
        None => 0,
    }
}

/// The counters with one of them counted; it wraps around at 64 bits.
pub open spec fn counted(m: Entries<i64>, name: Seq<char>, delta: i64) -> Entries<i64> {
    with_entry(m, name, counter(m, name).wrapping_add(delta))
}

/// The counters after an event.
pub open spec fn event_counted(m: Entries<i64>, type_: Seq<char>) -> Entries<i64> {
    let m = counted(m, "ows.events."@ + type_, 1);
    if occurs(type_, "workflow.completed"@) {
        counted(m, "ows.workflow.completed"@, 1)
    } else if occurs(type_, "workflow.faulted"@) {
        counted(m, "ows.workflow.faulted"@, 1)
    } else {
        m
    }
}

/// The samples of a duration.
pub open spec fn samples(m: Seq<(Seq<char>, Seq<u64>)>, name: Seq<char>) -> Seq<u64> {
    match entry(m, name) {
        Some(s) => s,
        None => Seq::empty(),
    }
}

/// The upper bound of a bucket.
pub open spec fn bucket_bound(i: int) -> u64 {
    from_int(DURATION_BUCKET_BOUNDS_MS[i] as int)
}

/// Whether a double is not above another.
pub open spec fn at_most(a: u64, b: u64) -> bool {
    same(a, b) || crate::double::below(a, b)
}

/// The bucket of a sample from a bucket on: the first whose bound is not below
/// it, or the last bucket.
pub open spec fn bucket_from(sample: u64, i: int) -> int
    decreases 8 - i,
{
    if i < 0 || i >= 8 || at_most(sample, bucket_bound(i)) {
        i
    } else {
        bucket_from(sample, i + 1)
    }
}

/// The number of samples in a bucket.
pub open spec fn bucket_count(s: Seq<u64>, bucket: int) -> nat
    decreases s.len(),
{
    if s.len() == 0 {
        0
    } else {
        bucket_count(s.drop_last(), bucket) + (if bucket_from(s.last(), 0) == bucket {
            1nat
        } else {
            0
        })
    }
}

/// The number of samples in the buckets below one.
pub open spec fn counts_below(s: Seq<u64>, bucket: nat) -> nat
    decreases bucket,
{
    if bucket == 0 {
        0
    } else {
        counts_below(s, (bucket - 1) as nat) + bucket_count(s, bucket - 1)
    }
}

/// Every sample falls into one of the nine buckets, so that their counts add up
/// to the number of samples.
pub proof fn law_buckets_add_up(s: Seq<u64>)
    ensures
        counts_below(s, 9) == s.len(),
    decreases s.len(),
{
    if s.len() == 0 {
        lemma_no_counts(s, 9);
    } else {
        law_buckets_add_up(s.drop_last());
        lemma_bucket_range(s.last(), 0);
        lemma_counts_step(s, 9);
    }
}

/// A sample falls into one of the buckets.
proof fn lemma_bucket_range(sample: u64, i: int)
    requires
        0 <= i <= 8,
    ensures
        i <= bucket_from(sample, i) <= 8,
    decreases 8 - i,
{
    if i < 8 && !at_most(sample, bucket_bound(i)) {
        lemma_bucket_range(sample, i + 1);
    }
}

/// Buckets before any sample are empty.
proof fn lemma_no_counts(s: Seq<u64>, bucket: nat)
    requires
        s.len() == 0,
    ensures
        counts_below(s, bucket) == 0,
    decreases bucket,
{
    if bucket > 0 {
        lemma_no_counts(s, (bucket - 1) as nat);
    }
}

/// One more sample counts in one bucket.
proof fn lemma_counts_step(s: Seq<u64>, bucket: nat)
    requires
        s.len() > 0,
        0 <= bucket_from(s.last(), 0),
    ensures
        counts_below(s, bucket) == counts_below(s.drop_last(), bucket) + (if bucket_from(
            s.last(),
            0,
        ) < bucket {
            1nat
        } else {
            0
        }),
    decreases bucket,
{
    if bucket > 0 {
        lemma_counts_step(s, (bucket - 1) as nat);
    }
}

/// The sum of samples, added from left to right.
pub open spec fn samples_sum(s: Seq<u64>) -> u64
    decreases s.len(),
{
    if s.len() == 0 {
        SIGN
    } else {
        sum(samples_sum(s.drop_last()), s.last())
    }
}

/// A double as a value; null where JSON has no number for it.
pub open spec fn float_json(bits: u64) -> Json {
    if is_finite(bits) {
        Json::Number(Number::Float(bits))
    } else {
        Json::Null
    }
}

/// The data of a metric with one data point.
pub open spec fn sum_json(value: i64, time: u64) -> Json {
    object_of(
        seq![
            ("aggregationTemporality"@, Json::Number(Number::PosInt(2))),
            ("isMonotonic"@, Json::Bool(true)),
            (
                "dataPoints"@,
                singleton(
                    object_of(
                        seq![
                            text_entry("asInt"@, decimal_int(value as int)),
                            text_entry("timeUnixNano"@, decimal(time as nat)),
                        ],
                    ),
                ),
            ),
        ],
    )
}

/// A counter as a metric.
pub open spec fn counter_json(name: Seq<char>, value: i64, time: u64) -> Json {
    object_of(
        seq![
            text_entry("name"@, name),
            text_entry("unit"@, "1"@),
            ("sum"@, sum_json(value, time)),
        ],
    )
}

/// The counts of the buckets as values.
pub open spec fn bucket_values(s: Seq<u64>, n: nat) -> Seq<Json> {
    Seq::new(n, |i: int| Json::String(decimal(bucket_count(s, i))))
}

/// The bounds of the buckets as values.
pub open spec fn bound_values(n: nat) -> Seq<Json> {
    Seq::new(n, |i: int| float_json(bucket_bound(i)))
}

/// The data point of a histogram.
pub open spec fn histogram_point(s: Seq<u64>, time: u64) -> Json {
    object_of(
        seq![
            text_entry("count"@, decimal(s.len())),
            ("sum"@, float_json(samples_sum(s))),
            ("bucketCounts"@, Json::Array(bucket_values(s, 9))),
            ("explicitBounds"@, Json::Array(bound_values(8))),
            text_entry("timeUnixNano"@, decimal(time as nat)),
        ],
    )
}

/// A duration as a metric.
pub open spec fn duration_json(name: Seq<char>, s: Seq<u64>, time: u64) -> Json {
    object_of(
        seq![
            text_entry("name"@, name),
            text_entry("unit"@, "ms"@),
            (
                "histogram"@,
                object_of(
                    seq![
                        ("aggregationTemporality"@, Json::Number(Number::PosInt(2))),
                        ("dataPoints"@, singleton(histogram_point(s, time))),
                    ],
                ),
            ),
        ],
    )
}

/// The counters as metrics.
pub open spec fn counter_metrics(m: Entries<i64>, time: u64) -> Seq<Json> {
    m.map_values(|e: (Seq<char>, i64)| counter_json(e.0, e.1, time))
}

/// The durations that have samples as metrics.
pub open spec fn duration_metrics(m: Seq<(Seq<char>, Seq<u64>)>, time: u64) -> Seq<Json>
    decreases m.len(),
{
    if m.len() == 0 {
        Seq::empty()
    } else if m.last().1.len() == 0 {
        duration_metrics(m.drop_last(), time)
    } else {
        duration_metrics(m.drop_last(), time).push(duration_json(m.last().0, m.last().1, time))
    }
}

/// The bucket of a sample.
fn bucket_of(sample: u64) -> (r: usize)
    ensures
        r == bucket_from(sample, 0),
        r <= 8,
{
    let mut i: usize = 0;
    while i < 8
        invariant
            i <= 8,
            bucket_from(sample, i as int) == bucket_from(sample, 0),
        decreases 8 - i,
    {
        let bound = from_u64(DURATION_BUCKET_BOUNDS_MS[i]);
        if equals(sample, bound) || precedes(sample, bound) {
            return i;
        }
        i += 1;
    }
    8
}

/// The number of samples in each bucket.
fn count_buckets(s: &Vec<u64>) -> (r: Vec<u64>)
    ensures
        r@.len() == 9,
        forall|b: int| 0 <= b < 9 ==> #[trigger] r@[b] == bucket_count(s@, b),
{
    let mut out: Vec<u64> = Vec::new();
    let mut k: usize = 0;
    while k < 9
        invariant
            k <= 9,
            out@.len() == k,
            forall|b: int| 0 <= b < k ==> #[trigger] out@[b] == 0,
        decreases 9 - k,
    {
        out.push(0);
        k += 1;
    }
    let mut i: usize = 0;
    while i < s.len()
        invariant
            i <= s.len(),
            out@.len() == 9,
            forall|b: int| 0 <= b < 9 ==> #[trigger] out@[b] == bucket_count(s@.take(i as int), b),
            forall|b: int| 0 <= b < 9 ==> #[trigger] out@[b] <= i,
        decreases s.len() - i,
    {
        let b = bucket_of(s[i]);
        proof {
            let next = s@.take(i + 1);
            assert(next.drop_last() =~= s@.take(i as int));
            assert(next.last() == s@[i as int]);
        }
        let n = out[b];
        assert(n <= i);
        out.set(b, n + 1);
        i += 1;
    }
    assert(s@.take(s.len() as int) =~= s@);
    out
}

/// The sum of samples.
fn sum_samples(s: &Vec<u64>) -> (r: u64)
    ensures
        r == samples_sum(s@),
{
    let mut total: u64 = SIGN;
    let mut i: usize = 0;
    while i < s.len()
        invariant
            i <= s.len(),
            total == samples_sum(s@.take(i as int)),
        decreases s.len() - i,
    {
        total = plus(total, s[i]);
        proof {
            let next = s@.take(i + 1);
            assert(next.drop_last() =~= s@.take(i as int));
            assert(next.last() == s@[i as int]);
        }
        i += 1;
    }
    assert(s@.take(s.len() as int) =~= s@);
    total
}

/// A double as a value.
fn float_value(bits: u64) -> (r: Value)
    ensures
        r@ == float_json(bits),
{
    if finite(bits) {
        Value::Number(Number::Float(bits))
    } else {
        Value::Null
    }
}

/// A counter as a metric.
fn counter_value(name: &str, value: i64, time: u64) -> (r: Value)
    ensures
        r@ == counter_json(name@, value, time),
{
    let as_int = i64_text(value);
    let at = u64_text(time);
    let point = Builder::new().with_text("asInt", as_int.as_str()).with_text(
        "timeUnixNano",
        at.as_str(),
    );
    assert(point.entries@ =~= seq![
        text_entry("asInt"@, decimal_int(value as int)),
        text_entry("timeUnixNano"@, decimal(time as nat)),
    ]);
    let data = Builder::new().with(
        "aggregationTemporality",
        Value::Number(Number::PosInt(2)),
    ).with("isMonotonic", Value::Bool(true)).with("dataPoints", one_item(point.done()));
    assert(data.entries@ =~= seq![
        ("aggregationTemporality"@, Json::Number(Number::PosInt(2))),
        ("isMonotonic"@, Json::Bool(true)),
        ("dataPoints"@, singleton(object_of(point.entries@))),
    ]);
    let metric = Builder::new().with_text("name", name).with_text("unit", "1").with(
        "sum",
        data.done(),
    );
    assert(metric.entries@ =~= seq![
        text_entry("name"@, name@),
        text_entry("unit"@, "1"@),
        ("sum"@, sum_json(value, time)),
    ]);
    metric.done()
}

/// The counts of the buckets as a value.
fn bucket_list(s: &Vec<u64>) -> (r: Value)
    ensures
        r@ == Json::Array(bucket_values(s@, 9)),
{
    let counts = count_buckets(s);
    let mut out: Vec<Value> = Vec::new();
    let mut i: usize = 0;
    assert(jsons(out@) =~= bucket_values(s@, 0));
    while i < 9
        invariant
            i <= 9,
            counts@.len() == 9,
            forall|b: int| 0 <= b < 9 ==> #[trigger] counts@[b] == bucket_count(s@, b),
            jsons(out@) == bucket_values(s@, i as nat),
        decreases 9 - i,
    {
        out.push(Value::String(u64_text(counts[i])));
        assert(bucket_values(s@, (i + 1) as nat) =~= bucket_values(s@, i as nat).push(
            Json::String(decimal(bucket_count(s@, i as int))),
        ));
        i += 1;
    }
    Value::Array(out)
}

/// The bounds of the buckets as a value.
fn bound_list() -> (r: Value)
    ensures
        r@ == Json::Array(bound_values(8)),
{
    let mut out: Vec<Value> = Vec::new();
    let mut i: usize = 0;
    assert(jsons(out@) =~= bound_values(0));
    while i < 8
        invariant
            i <= 8,
            jsons(out@) == bound_values(i as nat),
        decreases 8 - i,
    {
        out.push(float_value(from_u64(DURATION_BUCKET_BOUNDS_MS[i])));
        assert(bound_values((i + 1) as nat) =~= bound_values(i as nat).push(
            float_json(bucket_bound(i as int)),
        ));
        i += 1;
    }
    Value::Array(out)
}

/// A duration as a metric.
fn duration_value(name: &str, s: &Vec<u64>, time: u64) -> (r: Value)
    ensures
        r@ == duration_json(name@, s@, time),
{
    let count = usize_text(s.len());
    let at = u64_text(time);
    let point = Builder::new().with_text("count", count.as_str()).with(
        "sum",
        float_value(sum_samples(s)),
    ).with("bucketCounts", bucket_list(s)).with("explicitBounds", bound_list()).with_text(
        "timeUnixNano",
        at.as_str(),
    );
    assert(point.entries@ =~= seq![
        text_entry("count"@, decimal(s@.len())),
        ("sum"@, float_json(samples_sum(s@))),
        ("bucketCounts"@, Json::Array(bucket_values(s@, 9))),
        ("explicitBounds"@, Json::Array(bound_values(8))),
        text_entry("timeUnixNano"@, decimal(time as nat)),
    ]);
    let data = Builder::new().with(
        "aggregationTemporality",
        Value::Number(Number::PosInt(2)),
    ).with("dataPoints", one_item(point.done()));
    assert(data.entries@ =~= seq![
        ("aggregationTemporality"@, Json::Number(Number::PosInt(2))),
        ("dataPoints"@, singleton(histogram_point(s@, time))),
    ]);
    let metric = Builder::new().with_text("name", name).with_text("unit", "ms").with(
        "histogram",
        data.done(),
    );
    assert(metric.entries@ =~= seq![
        text_entry("name"@, name@),
        text_entry("unit"@, "ms"@),
        ("histogram"@, object_of(data.entries@)),
    ]);
    metric.done()
}

/// A metric for gRPC.
#[derive(Debug)]
pub struct Metric {
    pub name: String,
    pub unit: String,
    pub time_unix_nano: u64,
    pub data: MetricData,
}

/// The data of a metric; a double is given by its bits.
#[derive(Debug)]
pub enum MetricData {
    /// A monotonic cumulative sum.
    Sum(i64),
    /// A cumulative histogram.
    Histogram { count: u64, sum: u64, bucket_counts: Vec<u64>, explicit_bounds: Vec<u64> },
}

/// Whether a metric is that of a counter.
pub open spec fn is_counter_metric(m: Metric, name: Seq<char>, value: i64, time: u64) -> bool {
    &&& m.name@ == name
    &&& m.unit@ == "1"@
    &&& m.time_unix_nano == time
    &&& m.data == MetricData::Sum(value)
}

/// Whether a metric is that of a duration.
pub open spec fn is_duration_metric(m: Metric, name: Seq<char>, s: Seq<u64>, time: u64) -> bool {
    &&& m.name@ == name
    &&& m.unit@ == "ms"@
    &&& m.time_unix_nano == time
    &&& match m.data {
        MetricData::Histogram { count, sum, bucket_counts, explicit_bounds } => {
            &&& count == s.len()
            &&& sum == samples_sum(s)
            &&& bucket_counts@ == Seq::new(9, |i: int| bucket_count(s, i) as u64)
            &&& explicit_bounds@ == Seq::new(8, |i: int| bucket_bound(i))
        },
        _ => false,
    }
}

/// The durations that have samples.
pub open spec fn sampled(m: Seq<(Seq<char>, Seq<u64>)>) -> Seq<(Seq<char>, Seq<u64>)>
    decreases m.len(),
{
    if m.len() == 0 {
        Seq::empty()
    } else if m.last().1.len() == 0 {
        sampled(m.drop_last())
    } else {
        sampled(m.drop_last()).push(m.last())
    }
}

/// The metric of a counter.
fn counter_metric(name: &String, value: i64, time: u64) -> (r: Metric)
    ensures
        is_counter_metric(r, name@, value, time),
{
    Metric {
        name: name.clone(),
        unit: "1".to_owned(),
        time_unix_nano: time,
        data: MetricData::Sum(value),
    }
}

/// The metric of a duration.
fn duration_metric(name: &String, s: &Vec<u64>, time: u64) -> (r: Metric)
    ensures
        is_duration_metric(r, name@, s@, time),
{
    let bucket_counts = count_buckets(s);
    let mut explicit_bounds: Vec<u64> = Vec::new();
    let mut i: usize = 0;
    while i < 8
        invariant
            i <= 8,
            explicit_bounds@.len() == i,
            forall|b: int| 0 <= b < i ==> #[trigger] explicit_bounds@[b] == bucket_bound(b),
        decreases 8 - i,
    {
        explicit_bounds.push(from_u64(DURATION_BUCKET_BOUNDS_MS[i]));
        i += 1;
    }
    proof {
        assert(bucket_counts@ =~= Seq::new(9, |i: int| bucket_count(s@, i) as u64));
        assert(explicit_bounds@ =~= Seq::new(8, |i: int| bucket_bound(i)));
    }
    Metric {
        name: name.clone(),
        unit: "ms".to_owned(),
        time_unix_nano: time,
        data: MetricData::Histogram {
            count: s.len() as u64,
            sum: sum_samples(s),
            bucket_counts,
            explicit_bounds,
        },
    }
}

impl RuntimeMetrics {
    /// The counters.
    pub closed spec fn counts(self) -> Entries<i64> {
        self.counters@
    }

    /// The samples of each duration.
    pub closed spec fn recorded(self) -> Seq<(Seq<char>, Seq<u64>)> {
        sample_views(self.durations@)
    }

    /// Metrics without counters and durations.
    pub fn new() -> (r: Self)
        ensures
            r.counts() == Seq::<(Seq<char>, i64)>::empty(),
            r.recorded() == Seq::<(Seq<char>, Seq<u64>)>::empty(),
    {
        let r = Self { counters: Dict::new(), durations: Dict::new() };
        assert(r.recorded() =~= Seq::empty());
        r
    }

    /// Counts.
    pub fn inc_counter(&mut self, name: &str, delta: i64)
        ensures
            final(self).counts() == counted(old(self).counts(), name@, delta),
            final(self).recorded() == old(self).recorded(),
    {
        let now = match self.counters.get(name) {
            Some(n) => *n,
            None => 0,
        };
        self.counters.insert(name.to_owned(), now.wrapping_add(delta));
    }

    /// Records a duration in milliseconds, given by the bits of a double.
    pub fn observe_duration(&mut self, name: &str, millis: u64)
        ensures
            final(self).counts() == old(self).counts(),
            final(self).recorded() == with_entry(
                old(self).recorded(),
                name@,
                samples(old(self).recorded(), name@).push(millis),
            ),
    {
        proof {
            lemma_view_of_entry(self.durations@, name@);
        }
        let mut list: Vec<u64> = match self.durations.get(name) {
            Some(s) => copy_samples(s),
            None => Vec::new(),
        };
        assert(list@ =~= samples(self.recorded(), name@));
        list.push(millis);
        proof {
            lemma_view_of_set(self.durations@, name@, list);
        }
        self.durations.insert(name.to_owned(), list);
    }

    /// Counts an event.
    pub fn record_event(&mut self, event: &EventMessage)
        ensures
            final(self).counts() == event_counted(old(self).counts(), event@.type_),
            final(self).recorded() == old(self).recorded(),
    {
        let t = event.type_.as_str();
        let name = concat2("ows.events.", t);
        self.inc_counter(name.as_str(), 1);
        if contains(t, "workflow.completed") {
            self.inc_counter("ows.workflow.completed", 1);
        } else if contains(t, "workflow.faulted") {
            self.inc_counter("ows.workflow.faulted", 1);
        }
    }

    /// A copy of the counters.
    pub fn counters(&self) -> (r: Dict<i64>)
        ensures
            r@ == self.counts(),
    {
        let mut entries: Vec<(String, i64)> = Vec::new();
        let mut i: usize = 0;
        while i < self.counters.entries.len()
            invariant
                i <= self.counters.entries.len(),
                entries.len() == i,
                forall|j: int|
                    0 <= j < i ==> (#[trigger] entries@[j]).0@ == self.counters.entries@[j].0@
                        && entries@[j].1 == self.counters.entries@[j].1,
            decreases self.counters.entries.len() - i,
        {
            let key = self.counters.entries[i].0.clone();
            let n = self.counters.entries[i].1;
            entries.push((key, n));
            i += 1;
        }
        proof {
            use_type_invariant(&self.counters);
            assert(list_entries(entries@) =~= self.counts());
        }
        Dict { entries }
    }

    /// The samples of each duration.
    pub fn durations(&self) -> (r: &Dict<Vec<u64>>)
        ensures
            sample_views(r@) == self.recorded(),
    {
        &self.durations
    }

    /// The request that exports the metrics as JSON.
    pub fn encode_metrics_request(&self, service_name: &str, time_unix_nano: u64) -> (r: Value)
        ensures
            r@ == request_of(
                "resourceMetrics"@,
                "scopeMetrics"@,
                "metrics"@,
                service_name@,
                counter_metrics(self.counts(), time_unix_nano) + duration_metrics(
                    self.recorded(),
                    time_unix_nano,
                ),
            ),
    {
        let ghost m = self.counters@;
        let ghost t = time_unix_nano;
        let mut out: Vec<Value> = Vec::new();
        let mut i: usize = 0;
        assert(jsons(out@) =~= counter_metrics(m.take(0), t));
        while i < self.counters.entries.len()
            invariant
                i <= self.counters.entries.len(),
                m == self.counters@,
                t == time_unix_nano,
                jsons(out@) == counter_metrics(m.take(i as int), t),
            decreases self.counters.entries.len() - i,
        {
            out.push(
                counter_value(
                    self.counters.entries[i].0.as_str(),
                    self.counters.entries[i].1,
                    time_unix_nano,
                ),
            );
            assert(counter_metrics(m.take(i + 1), t) =~= counter_metrics(m.take(i as int), t).push(
                counter_json(m[i as int].0, m[i as int].1, t),
            ));
            i += 1;
        }
        assert(m.take(self.counters.entries.len() as int) =~= m);
        let ghost head = counter_metrics(m, t);
        let ghost d = self.recorded();
        let mut j: usize = 0;
        assert(head + duration_metrics(d.take(0), t) =~= head);
        while j < self.durations.entries.len()
            invariant
                j <= self.durations.entries.len(),
                d == sample_views(self.durations@),
                t == time_unix_nano,
                jsons(out@) == head + duration_metrics(d.take(j as int), t),
            decreases self.durations.entries.len() - j,
        {
            proof {
                let next = d.take(j + 1);
                assert(next.drop_last() =~= d.take(j as int));
                assert(next.last() == (
                    self.durations.entries@[j as int].0@,
                    self.durations.entries@[j as int].1@,
                ));
            }
            let ghost before = jsons(out@);
            if self.durations.entries[j].1.len() > 0 {
                out.push(
                    duration_value(
                        self.durations.entries[j].0.as_str(),
                        &self.durations.entries[j].1,
                        time_unix_nano,
                    ),
                );
            }
            assert(jsons(out@) =~= head + duration_metrics(d.take(j + 1), t));
            j += 1;
        }
        assert(d.take(self.durations.entries.len() as int) =~= d);
        build_request("resourceMetrics", "scopeMetrics", "metrics", service_name, out)
    }
}

/// The request that exports the metrics over gRPC.
pub fn metrics_request(
    metrics: &RuntimeMetrics,
    service_name: &str,
    time_unix_nano: u64,
) -> (r: ExportRequest<Metric>)
    ensures
        r.service_name@ == service_name@,
        r.scope_name@ == "ows-runtime"@,
        ({
            let counts = metrics.counts();
            let times = sampled(metrics.recorded());
            &&& r.items@.len() == counts.len() + times.len()
            &&& forall|i: int|
                0 <= i < counts.len() ==> is_counter_metric(
                    #[trigger] r.items@[i],
                    counts[i].0,
                    counts[i].1,
                    time_unix_nano,
                )
            &&& forall|i: int|
                0 <= i < times.len() ==> is_duration_metric(
                    #[trigger] r.items@[counts.len() + i],
                    times[i].0,
                    times[i].1,
                    time_unix_nano,
                )
        }),
{
    let counters = metrics.counters();
    let durations = metrics.durations();
    let ghost counts = counters@;
    let ghost d = sample_views(durations@);
    let mut items: Vec<Metric> = Vec::new();
    let mut i: usize = 0;
    while i < counters.entries.len()
        invariant
            i <= counters.entries.len(),
            counts == counters@,
            items@.len() == i,
            forall|k: int|
                0 <= k < i ==> is_counter_metric(
                    #[trigger] items@[k],
                    counts[k].0,
                    counts[k].1,
                    time_unix_nano,
                ),
        decreases counters.entries.len() - i,
    {
        items.push(
            counter_metric(&counters.entries[i].0, counters.entries[i].1, time_unix_nano),
        );
        i += 1;
    }
    let mut j: usize = 0;
    while j < durations.entries.len()
        invariant
            j <= durations.entries.len(),
            counts == counters@,
            d == sample_views(durations@),
            items@.len() == counts.len() + sampled(d.take(j as int)).len(),
            forall|k: int|
                0 <= k < counts.len() ==> is_counter_metric(
                    #[trigger] items@[k],
                    counts[k].0,
                    counts[k].1,
                    time_unix_nano,
                ),
            forall|k: int|
                0 <= k < sampled(d.take(j as int)).len() ==> is_duration_metric(
                    #[trigger] items@[counts.len() + k],
                    sampled(d.take(j as int))[k].0,
                    sampled(d.take(j as int))[k].1,
                    time_unix_nano,
                ),
        decreases durations.entries.len() - j,
    {
        let ghost before = sampled(d.take(j as int));
        let ghost old_items = items@;
        proof {
            let next = d.take(j + 1);
            assert(next.drop_last() =~= d.take(j as int));
            assert(next.last() == (
                durations.entries@[j as int].0@,
                durations.entries@[j as int].1@,
            ));
        }
        if durations.entries[j].1.len() > 0 {
            items.push(
                duration_metric(
                    &durations.entries[j].0,
                    &durations.entries[j].1,
                    time_unix_nano,
                ),
            );
        }
        proof {
            let now = sampled(d.take(j + 1));
            assert forall|k: int| 0 <= k < counts.len() implies is_counter_metric(
                #[trigger] items@[k],
                counts[k].0,
                counts[k].1,
                time_unix_nano,
            ) by {
                assert(items@[k] == old_items[k]);
            }
            assert forall|k: int| 0 <= k < now.len() implies is_duration_metric(
                #[trigger] items@[counts.len() + k],
                now[k].0,
                now[k].1,
                time_unix_nano,
            ) by {
                if k < before.len() {
                    assert(items@[counts.len() + k] == old_items[counts.len() + k]);
                    assert(now[k] == before[k]);
                }
            }
        }
        j += 1;
    }
    assert(d.take(durations.entries.len() as int) =~= d);
    ExportRequest {
        service_name: service_name.to_owned(),
        scope_name: "ows-runtime".to_owned(),
        items,
    }
}

/// Copies samples.
fn copy_samples(s: &Vec<u64>) -> (r: Vec<u64>)
    ensures
        r@ == s@,
{
    let mut out: Vec<u64> = Vec::new();
    let mut i: usize = 0;
    while i < s.len()
        invariant
            i <= s.len(),
            out@ == s@.take(i as int),
        decreases s.len() - i,
    {
        out.push(s[i]);
        assert(s@.take(i + 1) =~= s@.take(i as int).push(s@[i as int]));
        i += 1;
    }
    assert(s@.take(s.len() as int) =~= s@);
    out
}

/// Counting a counter changes it by the delta, and no other counter.
pub proof fn law_counting(m: Entries<i64>, name: Seq<char>, delta: i64, other: Seq<char>)
    ensures
        counter(counted(m, name, delta), name) == counter(m, name).wrapping_add(delta),
        other != name ==> counter(counted(m, name, delta), other) == counter(m, other),
{
    lemma_with_entry(m, name, counter(m, name).wrapping_add(delta), name);
    lemma_with_entry(m, name, counter(m, name).wrapping_add(delta), other);
}

// ---------------------------------------------------------------------------
// Answers of a collector
// ---------------------------------------------------------------------------

/// The error of an export that could not be sent.
pub fn send_error(what: &str, endpoint: &str, cause: &str) -> (r: WorkflowError)
    ensures
        is_error(
            r,
            ErrorKind::Communication,
            StandardErrorType::Communication,
            what@ + " to `"@ + endpoint@ + "` failed: "@ + cause@,
        ),
{
    let detail = concat5(what, " to `", endpoint, "` failed: ", cause);
    WorkflowError::detailed(ErrorKind::Communication, StandardErrorType::Communication, detail)
}

/// Whether the status that a collector answered is a success; any other is an
/// error.
pub fn check_status(what: &str, endpoint: &str, status: u16) -> (r: Result<(), WorkflowError>)
    ensures
        if 200 <= status < 300 {
            r is Ok
        } else {
            r is Err && is_error(
                r->Err_0,
                ErrorKind::Communication,
                StandardErrorType::Communication,
                what@ + " to `"@ + endpoint@ + "` returned status "@ + decimal(status as nat),
            )
        },
{
    if 200 <= status && status < 300 {
        return Ok(());
    }
    let code = u64_text(status as u64);
    let detail = concat5(what, " to `", endpoint, "` returned status ", code.as_str());
    Err(WorkflowError::detailed(ErrorKind::Communication, StandardErrorType::Communication, detail))
}

} // verus!
