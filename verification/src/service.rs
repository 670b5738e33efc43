//! Requests to and responses from the world outside the runtime.
use crate::clock::Duration;
use crate::context::ExpressionContext;
use crate::dict::{Dict, Entries, entry_views, list_entries};
use crate::error::WorkflowError;
use crate::json::{Json, Members, Object, Value};
use crate::text::{opt_view, text_less};
use crate::value::{copy_option, copy_text, option_json};
use vstd::prelude::*;

verus! {

broadcast use crate::json::group_json;

/// A request to a service.
#[derive(Debug)]
pub struct ServiceRequest {
    /// The service, by scheme and host or by a logical name.
    pub service: String,
    /// The operation, such as an HTTP method.
    pub operation: String,
    /// The destination, if there is one.
    pub uri: Option<String>,
    /// The headers.
    pub headers: Dict<String>,
    /// The body, if there is one.
    pub body: Option<Value>,
    /// The query parameters.
    pub query: Object,
    /// The time limit, if there is one.
    pub timeout: Option<Duration>,
}

/// The model of a [`ServiceRequest`].
pub ghost struct RequestModel {
    pub service: Seq<char>,
    pub operation: Seq<char>,
    pub uri: Option<Seq<char>>,
    pub headers: Seq<(Seq<char>, Seq<char>)>,
    pub body: Option<Json>,
    pub query: Members,
    pub timeout: Option<Duration>,
}

/// The entries of a map of texts, by their characters.
pub open spec fn header_views(m: Entries<String>) -> Seq<(Seq<char>, Seq<char>)> {
    entry_views(m)
}

impl View for ServiceRequest {
    type V = RequestModel;

    open spec fn view(&self) -> RequestModel {
        RequestModel {
            service: self.service@,
            operation: self.operation@,
            uri: opt_view(self.uri),
            headers: header_views(self.headers@),
            body: option_json(self.body),
            query: self.query@,
            timeout: self.timeout,
        }
    }
}

/// A response of a service.
#[derive(Debug)]
pub struct ServiceResponse {
    /// The status code.
    pub status: u16,
    /// The headers.
    pub headers: Dict<String>,
    /// The decoded body, if there is one.
    pub body: Option<Value>,
    /// The raw body, if there is one.
    pub raw: Option<Vec<u8>>,
    /// The content type, if there is one.
    pub content_type: Option<String>,
}

/// The model of a [`ServiceResponse`].
pub ghost struct ResponseModel {
    pub status: u16,
    pub headers: Seq<(Seq<char>, Seq<char>)>,
    pub body: Option<Json>,
    pub raw: Option<Seq<u8>>,
    pub content_type: Option<Seq<char>>,
}

impl View for ServiceResponse {
    type V = ResponseModel;

    open spec fn view(&self) -> ResponseModel {
        ResponseModel {
            status: self.status,
            headers: header_views(self.headers@),
            body: option_json(self.body),
            raw: match self.raw {
                Some(b) => Some(b@),
                None => None,
            },
            content_type: opt_view(self.content_type),
        }
    }
}

/// Copies a map of texts.
pub fn copy_headers(m: &Dict<String>) -> (r: Dict<String>)
    ensures
        header_views(r@) == header_views(m@),
{
    let mut out: Vec<(String, String)> = Vec::new();
    let mut i: usize = 0;
    while i < m.entries.len()
        invariant
            i <= m.entries.len(),
            out.len() == i,
            forall|j: int|
                0 <= j < i ==> (#[trigger] out@[j]).0@ == m.entries@[j].0@ && out@[j].1@
                    == m.entries@[j].1@,
        decreases m.entries.len() - i,
    {
        let key = m.entries[i].0.clone();
        let text = m.entries[i].1.clone();
        out.push((key, text));
        i += 1;
    }
    proof {
        use_type_invariant(m);
        let copy = list_entries(out@);
        assert forall|a: int, b: int| 0 <= a < b < copy.len() implies text_less(
            #[trigger] copy[a].0,
            #[trigger] copy[b].0,
        ) by {
            assert(text_less(m@[a].0, m@[b].0));
        }
        assert(entry_views(copy) =~= header_views(m@));
    }
    Dict { entries: out }
}

/// Copies optional bytes.
fn copy_bytes(b: &Option<Vec<u8>>) -> (r: Option<Vec<u8>>)
    ensures
        match (r, *b) {
            (Some(x), Some(y)) => x@ == y@,
            (None, None) => true,
            _ => false,
        },
{
    match b {
        Some(bytes) => {
            let mut out: Vec<u8> = Vec::new();
            let mut i: usize = 0;
            while i < bytes.len()
                invariant
                    i <= bytes.len(),
                    out@ == bytes@.take(i as int),
                decreases bytes.len() - i,
            {
                out.push(bytes[i]);
                assert(bytes@.take(i + 1) =~= bytes@.take(i as int).push(bytes@[i as int]));
                i += 1;
            }
            assert(bytes@.take(bytes.len() as int) =~= bytes@);
            Some(out)
        },
        None => None,
    }
}

impl Clone for ServiceRequest {
    fn clone(&self) -> (r: Self)
        ensures
            r@ == self@,
    {
        ServiceRequest {
            service: self.service.clone(),
            operation: self.operation.clone(),
            uri: copy_text(&self.uri),
            headers: copy_headers(&self.headers),
            body: copy_option(&self.body),
            query: self.query.clone(),
            timeout: self.timeout,
        }
    }
}

impl Clone for ServiceResponse {
    fn clone(&self) -> (r: Self)
        ensures
            r@ == self@,
    {
        ServiceResponse {
            status: self.status,
            headers: copy_headers(&self.headers),
            body: copy_option(&self.body),
            raw: copy_bytes(&self.raw),
            content_type: copy_text(&self.content_type),
        }
    }
}

/// A call of a workflow function.
#[derive(Debug)]
pub struct FunctionRequest<'a> {
    /// The name of the function.
    pub name: String,
    /// The arguments.
    pub args: Object,
    /// What expressions are evaluated in.
    pub context: &'a ExpressionContext,
}

/// An event to publish.
#[derive(Debug)]
pub struct EventMessage {
    /// Identifies the event.
    pub id: String,
    /// Where the event happened.
    pub source: String,
    /// The type of the event.
    pub type_: String,
    /// When the event happened.
    pub time: Option<String>,
    /// What the event is about.
    pub subject: Option<String>,
    /// The content type of the data.
    pub data_content_type: Option<String>,
    /// The schema of the data.
    pub data_schema: Option<String>,
    /// The data.
    pub data: Option<Value>,
    /// Further attributes.
    pub extensions: Object,
}

/// The model of an [`EventMessage`].
pub ghost struct MessageModel {
    pub id: Seq<char>,
    pub source: Seq<char>,
    pub type_: Seq<char>,
    pub time: Option<Seq<char>>,
    pub subject: Option<Seq<char>>,
    pub data_content_type: Option<Seq<char>>,
    pub data_schema: Option<Seq<char>>,
    pub data: Option<Json>,
    pub extensions: Members,
}

impl View for EventMessage {
    type V = MessageModel;

    open spec fn view(&self) -> MessageModel {
        MessageModel {
            id: self.id@,
            source: self.source@,
            type_: self.type_@,
            time: opt_view(self.time),
            subject: opt_view(self.subject),
            data_content_type: opt_view(self.data_content_type),
            data_schema: opt_view(self.data_schema),
            data: option_json(self.data),
            extensions: self.extensions@,
        }
    }
}

/// The message with an identity, a source and a type, and nothing else.
pub open spec fn bare_message(id: Seq<char>, source: Seq<char>, type_: Seq<char>) -> MessageModel {
    MessageModel {
        id,
        source,
        type_,
        time: None,
        subject: None,
        data_content_type: None,
        data_schema: None,
        data: None,
        extensions: Seq::empty(),
    }
}

impl EventMessage {
    /// A message with an identity, a source and a type.
    pub fn new(id: &str, source: &str, type_: &str) -> (r: Self)
        ensures
            r@ == bare_message(id@, source@, type_@),
    {
        Self {
            id: id.to_owned(),
            source: source.to_owned(),
            type_: type_.to_owned(),
            time: None,
            subject: None,
            data_content_type: None,
            data_schema: None,
            data: None,
            extensions: Object::new(),
        }
    }

    /// The message with data.
    pub fn with_data(self, data: Value) -> (r: Self)
        ensures
            r@ == (MessageModel { data: Some(data@), ..self@ }),
    {
        Self { data: Some(data), ..self }
    }

    /// The message with a time.
    pub fn with_time(self, time: &str) -> (r: Self)
        ensures
            r@ == (MessageModel { time: Some(time@), ..self@ }),
    {
        Self { time: Some(time.to_owned()), ..self }
    }
}

impl Clone for EventMessage {
    fn clone(&self) -> (r: Self)
        ensures
            r@ == self@,
    {
        EventMessage {
            id: self.id.clone(),
            source: self.source.clone(),
            type_: self.type_.clone(),
            time: copy_text(&self.time),
            subject: copy_text(&self.subject),
            data_content_type: copy_text(&self.data_content_type),
            data_schema: copy_text(&self.data_schema),
            data: copy_option(&self.data),
            extensions: self.extensions.clone(),
        }
    }
}

/// Invokes services.
pub trait ServiceInvoker {
    /// Invokes a service and returns its response.
    fn invoke(&mut self, request: &ServiceRequest) -> Result<ServiceResponse, WorkflowError>;
}

/// Publishes events.
pub trait EventPublisher {
    /// Publishes an event.
    fn publish(&mut self, event: &EventMessage) -> Result<(), WorkflowError>;
}

/// Hands out the events of a subscription.
pub trait EventSubscription {
    /// The next event, if there is one.
    fn recv(&mut self) -> Option<EventMessage>;
}

/// A publisher that discards every event.
#[derive(Debug, Clone, Copy)]
pub struct NullEventPublisher;

impl EventPublisher for NullEventPublisher {
    fn publish(&mut self, _event: &EventMessage) -> (r: Result<(), WorkflowError>)
        ensures
            r is Ok,
    {
        Ok(())
    }
}

/// A consumer that never delivers an event.
#[derive(Debug, Clone, Copy)]
pub struct NoopEventConsumer;

impl EventSubscription for NoopEventConsumer {
    fn recv(&mut self) -> (r: Option<EventMessage>)
        ensures
            r is None,
    {
        None
    }
}

/// The result of running a process.
#[derive(Debug)]
pub struct ProcessResult {
    /// The exit code, if the process ended by itself.
    pub code: Option<i32>,
    /// What the process wrote to its standard output.
    pub stdout: Option<String>,
    /// What the process wrote to its standard error.
    pub stderr: Option<String>,
}

/// Runs processes.
pub trait ProcessRunner {
    /// Runs a shell command.
    fn run_shell(
        &mut self,
        command: &str,
        args: &Vec<String>,
        env: &Dict<String>,
        stdin: Option<String>,
    ) -> Result<ProcessResult, WorkflowError>;

    /// Runs a script.
    fn run_script(
        &mut self,
        language: &str,
        code: &str,
        args: &Vec<String>,
        env: &Dict<String>,
        stdin: Option<String>,
    ) -> Result<ProcessResult, WorkflowError>;

    /// Runs a container.
    fn run_container(
        &mut self,
        image: &str,
        args: &Vec<String>,
        env: &Dict<String>,
        stdin: Option<String>,
    ) -> Result<ProcessResult, WorkflowError>;
}

/// The outcome of a task.
#[derive(Debug)]
pub enum TaskOutcome {
    /// The task ran to completion.
    Completed(Value),
    /// The task was cancelled.
    Cancelled,
}

/// The output of a task with the number of attempts.
#[derive(Debug)]
pub struct TaskResult {
    /// The output.
    pub output: Value,
    /// The number of attempts taken.
    pub attempts: u32,
}

impl TaskResult {
    /// The result of a task that succeeded at once.
    pub fn new(output: Value) -> (r: Self)
        ensures
            r.output == output,
            r.attempts == 1,
    {
        Self { output, attempts: 1 }
    }
}

} // verus!
