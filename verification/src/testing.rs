//! Fakes for tests: a clock, a service, a function and a publisher.
use crate::clock::{Clock, DeterministicClock, Duration, NANOS_PER_SECOND, WORDS};
use crate::context::ExpressionContext;
use crate::dict::{
    Dict, Entries, entry, entry_views, lemma_view_of_entry, lemma_view_of_set, with_entry,
};
use crate::error::{ErrorKind, StandardErrorType, WorkflowError, is_error};
use crate::json::{Json, Members, Object, Value};
use crate::service::{
    EventMessage, EventPublisher, MessageModel, RequestModel, ResponseModel, ServiceInvoker,
    ServiceRequest, ServiceResponse, header_views,
};
use crate::text::{
    chars_of, concat3, find, find_from, lemma_find_from, replace, replaced, string_of,
};
use crate::value::{lookup, member, option_json, plain_text, to_string};
use vstd::prelude::*;

verus! {

broadcast use crate::json::group_json;

/// A clock that a test advances.
#[derive(Debug)]
pub struct TestClock {
    clock: DeterministicClock,
}

impl TestClock {
    /// The nanoseconds on the clock.
    pub closed spec fn nanos(self) -> nat {
        self.clock.nanos()
    }

    /// A clock at time zero.
    pub fn new() -> (r: Self)
        ensures
            r.nanos() == 0,
    {
        Self { clock: DeterministicClock::new() }
    }

    /// Advances the clock by milliseconds.
    pub fn advance_ms(&mut self, ms: u64)
        ensures
            final(self).nanos() == (old(self).nanos() + ms * 1_000_000) % (WORDS as int),
    {
        self.clock.advance(Duration::from_millis(ms));
    }

    /// The seconds on the clock.
    pub fn now(&self) -> (r: i64)
        ensures
            r == self.nanos() / (NANOS_PER_SECOND as nat),
    {
        self.clock.epoch_seconds()
    }

    /// Hands the clock out for sharing.
    pub fn arc(self) -> (r: std::sync::Arc<DeterministicClock>)
        ensures
            r.nanos() == self.nanos(),
    {
        std::sync::Arc::new(self.clock)
    }
}

/// The models of the responses of a fake service.
pub open spec fn response_views(m: Entries<ServiceResponse>) -> Seq<(Seq<char>, ResponseModel)> {
    entry_views(m)
}

/// The models of a list of requests.
pub open spec fn request_views(items: Seq<ServiceRequest>) -> Seq<RequestModel> {
    items.map_values(|r: ServiceRequest| r@)
}

/// The key of a stub: the method, a space and the destination.
pub open spec fn stub_key(method: Seq<char>, uri: Seq<char>) -> Seq<char> {
    method + " "@ + uri
}

/// The key under which a request is looked up.
pub open spec fn request_key(r: RequestModel) -> Seq<char> {
    stub_key(
        r.operation,
        match r.uri {
            Some(u) => u,
            None => Seq::empty(),
        },
    )
}

/// A service with prepared responses.
#[derive(Debug)]
pub struct FakeServiceInvoker {
    responses: Dict<ServiceResponse>,
    calls: Vec<ServiceRequest>,
}

impl FakeServiceInvoker {
    /// The responses by key.
    pub closed spec fn stubs(self) -> Seq<(Seq<char>, ResponseModel)> {
        response_views(self.responses@)
    }

    /// The requests that were made, in order.
    pub closed spec fn made(self) -> Seq<RequestModel> {
        request_views(self.calls@)
    }

    /// A service without responses.
    pub fn new() -> (r: Self)
        ensures
            r.stubs() == Seq::<(Seq<char>, ResponseModel)>::empty(),
            r.made() == Seq::<RequestModel>::empty(),
    {
        let r = Self { responses: Dict::new(), calls: Vec::new() };
        assert(r.stubs() =~= Seq::empty());
        assert(r.made() =~= Seq::empty());
        r
    }

    /// Prepares a response for a method and a destination.
    pub fn stub(&mut self, method: &str, uri: &str, response: ServiceResponse)
        ensures
            final(self).stubs() == with_entry(
                old(self).stubs(),
                stub_key(method@, uri@),
                response@,
            ),
            final(self).made() == old(self).made(),
    {
        let key = concat3(method, " ", uri);
        proof {
            lemma_view_of_set(self.responses@, key@, response);
        }
        self.responses.insert(key, response);
    }

    /// A copy of the requests that were made.
    pub fn calls(&self) -> (r: Vec<ServiceRequest>)
        ensures
            request_views(r@) == self.made(),
    {
        let mut out: Vec<ServiceRequest> = Vec::new();
        let mut i: usize = 0;
        while i < self.calls.len()
            invariant
                i <= self.calls.len(),
                out.len() == i,
                forall|j: int| 0 <= j < i ==> (#[trigger] out@[j])@ == self.calls@[j]@,
            decreases self.calls.len() - i,
        {
            out.push(self.calls[i].clone());
            i += 1;
        }
        assert(request_views(out@) =~= self.made());
        out
    }
}

impl ServiceInvoker for FakeServiceInvoker {
    /// Records a request and gives the response prepared for it.
    fn invoke(&mut self, request: &ServiceRequest) -> (r: Result<
        ServiceResponse,
        WorkflowError,
    >)
        ensures
            final(self).made() == old(self).made().push(request@),
            final(self).stubs() == old(self).stubs(),
            match entry(old(self).stubs(), request_key(request@)) {
                Some(response) => r is Ok && r->Ok_0@ == response,
                None => r is Err && is_error(
                    r->Err_0,
                    ErrorKind::Communication,
                    StandardErrorType::Communication,
                    "no stub for `"@ + request_key(request@) + "`"@,
                ),
            },
    {
        let ghost before = self.calls@;
        self.calls.push(request.clone());
        assert(self.made() =~= request_views(before).push(request@));
        let uri = match &request.uri {
            Some(u) => u.clone(),
            None => String::new(),
        };
        let key = concat3(request.operation.as_str(), " ", uri.as_str());
        proof {
            lemma_view_of_entry(self.responses@, key@);
        }
        match self.responses.get(key.as_str()) {
            Some(response) => Ok(response.clone()),
            None => {
                let detail = concat3("no stub for `", key.as_str(), "`");
                Err(
                    WorkflowError::detailed(
                        ErrorKind::Communication,
                        StandardErrorType::Communication,
                        detail,
                    ),
                )
            },
        }
    }
}

// ---------------------------------------------------------------------------
// The fake function
// ---------------------------------------------------------------------------

/// The upper case of a text.
pub uninterp spec fn upper_case(s: Seq<char>) -> Seq<char>;

/// Trusted: `str::to_uppercase` gives the upper case of a text by Unicode. Which
/// characters it gives follows the tables of `std` and is not stated.
#[verifier::external_body]
fn to_upper(s: &str) -> (r: String)
    ensures
        r@ == upper_case(s@),
{
    s.to_uppercase()
}

/// The method that the arguments of a call name.
pub open spec fn call_method(args: Members) -> Seq<char> {
    match lookup(args, "method"@) {
        Some(Json::String(s)) => s,
        _ => "GET"@,
    }
}

/// The destination that the arguments of a call name: a text, or the `uri` of an
/// object.
pub open spec fn call_endpoint(args: Members) -> Seq<char> {
    match lookup(args, "endpoint"@) {
        Some(Json::String(s)) => s,
        Some(Json::Object(m)) => match lookup(m, "uri"@) {
            Some(Json::String(s)) => s,
            _ => Seq::empty(),
        },
        _ => Seq::empty(),
    }
}

/// The input of the workflow that a call belongs to.
pub open spec fn workflow_input(workflow: Option<Json>) -> Json {
    match workflow {
        Some(Json::Object(m)) => member(m, "input"@),
        _ => Json::Null,
    }
}

/// A destination after the placeholders of a template were replaced, from an
/// index of the template on. A placeholder is a name in braces; it is replaced
/// everywhere where the input has a member of that name.
pub open spec fn expanded(
    template: Seq<char>,
    i: int,
    uri: Seq<char>,
    input: Json,
) -> Seq<char>
    decreases template.len() - i,
{
    if i < 0 || i >= template.len() {
        uri
    } else if template[i] != '{' {
        expanded(template, i + 1, uri, input)
    } else {
        match find_from(template, seq!['}'], i + 1) {
            None => expanded(template, i + 1, uri, input),
            Some(close) => {
                proof {
                    lemma_find_from(template, seq!['}'], i + 1);
                }
                let name = template.subrange(i + 1, close);
                expanded(template, close + 1, filled(uri, name, input), input)
            },
        }
    }
}

/// A destination with one placeholder replaced by the input's member of its name.
pub open spec fn filled(uri: Seq<char>, name: Seq<char>, input: Json) -> Seq<char> {
    match input {
        Json::Object(m) => match lookup(m, name) {
            Some(v) => replaced(uri, "{"@ + name + "}"@, plain_text(v)),
            None => uri,
        },
        _ => uri,
    }
}

/// The request of a call with the given operation.
pub open spec fn call_request(
    operation: Seq<char>,
    args: Members,
    workflow: Option<Json>,
) -> RequestModel {
    let template = call_endpoint(args);
    RequestModel {
        service: "http"@,
        operation,
        uri: Some(expanded(template, 0, template, workflow_input(workflow))),
        headers: Seq::empty(),
        body: lookup(args, "body"@),
        query: Seq::empty(),
        timeout: None,
    }
}

/// Replaces one placeholder.
fn fill(uri: String, name: &str, input: &Value) -> (r: String)
    ensures
        r@ == filled(uri@, name@, input@),
{
    match input.get(name) {
        Some(v) => {
            let mark = concat3("{", name, "}");
            let text = to_string(v);
            proof {
                reveal_strlit("{");
            }
            replace(uri.as_str(), mark.as_str(), text.as_str())
        },
        None => uri,
    }
}

/// Replaces the placeholders of a destination.
fn expand(template: &str, input: &Value) -> (r: String)
    ensures
        r@ == expanded(template@, 0, template@, input@),
{
    let chars = chars_of(template);
    let mut brace: Vec<char> = Vec::new();
    brace.push('}');
    let mut uri = template.to_owned();
    let mut i: usize = 0;
    while i < chars.len()
        invariant
            i <= chars.len(),
            chars@ == template@,
            brace@ == seq!['}'],
            expanded(template@, i as int, uri@, input@) == expanded(
                template@,
                0,
                template@,
                input@,
            ),
        decreases chars.len() - i,
    {
        if chars[i] == '{' {
            match find(&chars, &brace, i + 1) {
                Some(close) => {
                    let name = string_of(&chars, i + 1, close);
                    uri = fill(uri, name.as_str(), input);
                    i = close + 1;
                },
                None => {
                    i += 1;
                },
            }
        } else {
            i += 1;
        }
    }
    uri
}

/// An `http` function over a fake service.
#[derive(Debug)]
pub struct FakeHttpFunction {
    service: FakeServiceInvoker,
}

impl FakeHttpFunction {
    /// The responses of the service by key.
    pub closed spec fn stubs(self) -> Seq<(Seq<char>, ResponseModel)> {
        self.service.stubs()
    }

    /// The requests that were made to the service, in order.
    pub closed spec fn made(self) -> Seq<RequestModel> {
        self.service.made()
    }

    /// The function over a service.
    pub fn new(service: FakeServiceInvoker) -> (r: Self)
        ensures
            r.stubs() == service.stubs(),
            r.made() == service.made(),
    {
        Self { service }
    }

    /// The service, with the requests that were made to it.
    pub fn service(&self) -> (r: &FakeServiceInvoker)
        ensures
            r.made() == self.made(),
            r.stubs() == self.stubs(),
    {
        &self.service
    }

    /// The request of a call with the given operation.
    pub fn request(operation: String, args: &Object, context: &ExpressionContext) -> (r:
        ServiceRequest)
        ensures
            r@ == call_request(operation@, args@, option_json(context.workflow)),
    {
        let template = match args.get("endpoint") {
            Some(Value::String(s)) => s.clone(),
            Some(Value::Object(m)) => match m.get("uri") {
                Some(Value::String(s)) => s.clone(),
                _ => String::new(),
            },
            _ => String::new(),
        };
        let input = match &context.workflow {
            Some(Value::Object(m)) => m.get_or_null("input"),
            _ => Value::Null,
        };
        let uri = expand(template.as_str(), &input);
        let headers: Dict<String> = Dict::new();
        let body = match args.get("body") {
            Some(v) => Some(v.clone()),
            None => None,
        };
        assert(header_views(headers@) =~= Seq::empty());
        ServiceRequest {
            service: "http".to_owned(),
            operation,
            uri: Some(uri),
            headers,
            body,
            query: Object::new(),
            timeout: None,
        }
    }

    /// Sends the request of a call with the given operation: the body of the
    /// response, or null when it has none.
    pub fn send(&mut self, operation: String, args: &Object, context: &ExpressionContext) -> (r:
        Result<Value, WorkflowError>)
        ensures
            final(self).stubs() == old(self).stubs(),
            is_call(
                r,
                old(self).stubs(),
                old(self).made(),
                final(self).made(),
                call_request(operation@, args@, option_json(context.workflow)),
            ),
    {
        let request = Self::request(operation, args, context);
        match self.service.invoke(&request) {
            Ok(response) => match response.body {
                Some(v) => Ok(v),
                None => Ok(Value::Null),
            },
            Err(e) => Err(e),
        }
    }

    /// Calls the function with the operation that the arguments name, in upper
    /// case.
    pub fn invoke(&mut self, args: &Object, context: &ExpressionContext) -> (r: Result<
        Value,
        WorkflowError,
    >)
        ensures
            final(self).stubs() == old(self).stubs(),
            is_call(
                r,
                old(self).stubs(),
                old(self).made(),
                final(self).made(),
                call_request(
                    upper_case(call_method(args@)),
                    args@,
                    option_json(context.workflow),
                ),
            ),
    {
        let operation = match args.get("method") {
            Some(Value::String(s)) => to_upper(s.as_str()),
            _ => to_upper("GET"),
        };
        self.send(operation, args, context)
    }
}

/// Whether a call made a request and gave the body of the response prepared for
/// it, or the error where none is prepared.
pub open spec fn is_call(
    r: Result<Value, WorkflowError>,
    stubs: Seq<(Seq<char>, ResponseModel)>,
    before: Seq<RequestModel>,
    after: Seq<RequestModel>,
    request: RequestModel,
) -> bool {
    &&& after == before.push(request)
    &&& match entry(stubs, request_key(request)) {
        Some(response) => r is Ok && r->Ok_0@ == (match response.body {
            Some(j) => j,
            None => Json::Null,
        }),
        None => r is Err && is_error(
            r->Err_0,
            ErrorKind::Communication,
            StandardErrorType::Communication,
            "no stub for `"@ + request_key(request) + "`"@,
        ),
    }
}

/// A publisher that records events.
#[derive(Debug)]
pub struct RecordingEventPublisher {
    events: Vec<EventMessage>,
}

/// The models of a list of messages.
pub open spec fn published_views(events: Seq<EventMessage>) -> Seq<MessageModel> {
    events.map_values(|e: EventMessage| e@)
}

impl RecordingEventPublisher {
    /// The events that were published, in order.
    pub closed spec fn published(self) -> Seq<MessageModel> {
        published_views(self.events@)
    }

    /// A publisher without records.
    pub fn new() -> (r: Self)
        ensures
            r.published() == Seq::<MessageModel>::empty(),
    {
        let r = Self { events: Vec::new() };
        assert(r.published() =~= Seq::empty());
        r
    }

    /// A copy of the events that were published.
    pub fn events(&self) -> (r: Vec<EventMessage>)
        ensures
            published_views(r@) == self.published(),
    {
        let mut out: Vec<EventMessage> = Vec::new();
        let mut i: usize = 0;
        while i < self.events.len()
            invariant
                i <= self.events.len(),
                out.len() == i,
                forall|j: int| 0 <= j < i ==> (#[trigger] out@[j])@ == self.events@[j]@,
            decreases self.events.len() - i,
        {
            out.push(self.events[i].clone());
            i += 1;
        }
        assert(published_views(out@) =~= self.published());
        out
    }
}

impl EventPublisher for RecordingEventPublisher {
    fn publish(&mut self, event: &EventMessage) -> (r: Result<(), WorkflowError>)
        ensures
            r is Ok,
            final(self).published() == old(self).published().push(event@),
    {
        let ghost before = self.events@;
        self.events.push(event.clone());
        assert(self.published() =~= published_views(before).push(event@));
        Ok(())
    }
}

} // verus!
