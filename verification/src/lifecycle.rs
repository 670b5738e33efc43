//! The lifecycle events of workflows and tasks.
use crate::builder::{Builder, members_of, text_entry};
use crate::events::CloudEvent;
use crate::json::{Json, Number, Value};
use crate::service::{EventMessage, MessageModel, bare_message};
use crate::text::{concat2, concat3, concat5};
use vstd::prelude::*;

verus! {

broadcast use crate::json::group_json;

/// Identifies a workflow in lifecycle events.
#[derive(Debug)]
pub struct WorkflowRef {
    /// The namespace of the workflow.
    pub namespace: String,
    /// The name of the workflow.
    pub name: String,
    /// The version of the workflow.
    pub version: String,
}

/// The qualified name of a workflow.
pub open spec fn qualified(wf: WorkflowRef) -> Seq<char> {
    wf.name@ + "-"@ + wf.version@ + "."@ + wf.namespace@
}

/// The source of the events of a workflow.
pub open spec fn event_source(wf: WorkflowRef) -> Seq<char> {
    "/"@ + wf.namespace@ + "/"@ + wf.name@ + "/"@ + wf.version@
}

impl WorkflowRef {
    /// The qualified name.
    pub fn qualified_name(&self) -> (r: String)
        ensures
            r@ == qualified(*self),
    {
        concat5(
            self.name.as_str(),
            "-",
            self.version.as_str(),
            ".",
            self.namespace.as_str(),
        )
    }
}

pub const WORKFLOW_STARTED: &'static str = "io.serverlessworkflow.workflow.started.v1";

pub const WORKFLOW_SUSPENDED: &'static str = "io.serverlessworkflow.workflow.suspended.v1";

pub const WORKFLOW_RESUMED: &'static str = "io.serverlessworkflow.workflow.resumed.v1";

pub const WORKFLOW_CORRELATION_STARTED: &'static str =
    "io.serverlessworkflow.workflow.correlation-started.v1";

pub const WORKFLOW_CORRELATION_COMPLETED: &'static str =
    "io.serverlessworkflow.workflow.correlation-completed.v1";

pub const WORKFLOW_CANCELLED: &'static str = "io.serverlessworkflow.workflow.cancelled.v1";

pub const WORKFLOW_FAULTED: &'static str = "io.serverlessworkflow.workflow.faulted.v1";

pub const WORKFLOW_COMPLETED: &'static str = "io.serverlessworkflow.workflow.completed.v1";

pub const WORKFLOW_STATUS_CHANGED: &'static str =
    "io.serverlessworkflow.workflow.status-changed.v1";

pub const TASK_CREATED: &'static str = "io.serverlessworkflow.task.created.v1";

pub const TASK_STARTED: &'static str = "io.serverlessworkflow.task.started.v1";

pub const TASK_SUSPENDED: &'static str = "io.serverlessworkflow.task.suspended.v1";

pub const TASK_RESUMED: &'static str = "io.serverlessworkflow.task.resumed.v1";

pub const TASK_RETRIED: &'static str = "io.serverlessworkflow.task.retried.v1";

pub const TASK_CANCELLED: &'static str = "io.serverlessworkflow.task.cancelled.v1";

pub const TASK_FAULTED: &'static str = "io.serverlessworkflow.task.faulted.v1";

pub const TASK_COMPLETED: &'static str = "io.serverlessworkflow.task.completed.v1";

pub const TASK_STATUS_CHANGED: &'static str = "io.serverlessworkflow.task.status-changed.v1";

// ---------------------------------------------------------------------------
// Model
// ---------------------------------------------------------------------------

/// A lifecycle event: its identity, the workflow it comes from, its type, its
/// time and its data.
pub open spec fn lifecycle_event(
    id: Seq<char>,
    wf: WorkflowRef,
    type_: Seq<char>,
    time: Seq<char>,
    entries: Seq<(Seq<char>, Json)>,
) -> MessageModel {
    MessageModel {
        time: Some(time),
        data: Some(Json::Object(members_of(entries))),
        ..bare_message(id, event_source(wf), type_)
    }
}

/// The qualified name as a member of the data.
pub open spec fn name_entry(wf: WorkflowRef) -> (Seq<char>, Json) {
    ("name"@, Json::String(qualified(wf)))
}

/// The definition as a member of the data.
pub open spec fn definition_entry(wf: WorkflowRef) -> (Seq<char>, Json) {
    (
        "definition"@,
        Json::Object(
            members_of(
                seq![
                    text_entry("name"@, wf.name@),
                    text_entry("namespace"@, wf.namespace@),
                    text_entry("version"@, wf.version@),
                ],
            ),
        ),
    )
}

/// The task as a member of the data.
pub open spec fn task_entry(id: Seq<char>, name: Seq<char>) -> (Seq<char>, Json) {
    (
        "task"@,
        Json::Object(members_of(seq![text_entry("id"@, id), text_entry("name"@, name)])),
    )
}

/// The identity of an event of a task.
pub open spec fn task_event_id(
    execution_id: Seq<char>,
    task_id: Seq<char>,
    what: Seq<char>,
) -> Seq<char> {
    execution_id + "."@ + task_id + what
}

// ---------------------------------------------------------------------------
// Events
// ---------------------------------------------------------------------------

/// Builds the events that report the life of workflows and tasks.
#[derive(Debug, Clone, Copy)]
pub struct LifecycleEmitter;

impl LifecycleEmitter {
    /// A builder of events.
    pub fn new() -> (r: Self)
        ensures
            r == LifecycleEmitter,
    {
        Self
    }

    /// The source of the events of a workflow.
    fn source(&self, wf: &WorkflowRef) -> (r: String)
        ensures
            r@ == event_source(*wf),
    {
        let mut out = concat5("/", wf.namespace.as_str(), "/", wf.name.as_str(), "/");
        out.append(wf.version.as_str());
        out
    }

    /// Builds an event.
    fn emit(&self, id: &str, wf: &WorkflowRef, type_: &str, time: &str, data: Builder) -> (r:
        EventMessage)
        requires
            data.wf(),
        ensures
            r@ == lifecycle_event(id@, *wf, type_@, time@, data.entries@),
    {
        let source = self.source(wf);
        let event = CloudEvent::new(id, source.as_str(), type_).with_time(time).with_data(
            Value::Object(data.object),
        );
        event.to_message()
    }

    /// The workflow's data so far: its qualified name.
    fn named(&self, wf: &WorkflowRef) -> (r: Builder)
        ensures
            r.wf(),
            r.entries@ == seq![name_entry(*wf)],
    {
        let name = wf.qualified_name();
        let r = Builder::new().with_text("name", name.as_str());
        assert(r.entries@ =~= seq![name_entry(*wf)]);
        r
    }

    /// The task's data so far.
    fn task(&self, wf: &WorkflowRef, execution_id: &str, task_id: &str, task_name: &str) -> (r:
        Builder)
        ensures
            r.wf(),
            r.entries@ == seq![
                name_entry(*wf),
                text_entry("executionId"@, execution_id@),
                task_entry(task_id@, task_name@),
            ],
    {
        let task = Builder::new().with_text("id", task_id).with_text("name", task_name);
        assert(task.entries@ =~= seq![
            text_entry("id"@, task_id@),
            text_entry("name"@, task_name@),
        ]);
        let r = self.named(wf).with_text("executionId", execution_id).with(
            "task",
            Value::Object(task.object),
        );
        assert(r.entries@ =~= seq![
            name_entry(*wf),
            text_entry("executionId"@, execution_id@),
            task_entry(task_id@, task_name@),
        ]);
        r
    }

    /// The identity of an event of a task.
    fn task_id(&self, execution_id: &str, task_id: &str, what: &str) -> (r: String)
        ensures
            r@ == task_event_id(execution_id@, task_id@, what@),
    {
        let mut out = concat3(execution_id, ".", task_id);
        out.append(what);
        out
    }

    /// A workflow was started.
    pub fn workflow_started(&self, wf: &WorkflowRef, execution_id: &str, started_at: &str) -> (r:
        EventMessage)
        ensures
            r@ == lifecycle_event(
                execution_id@ + ".started"@,
                *wf,
                WORKFLOW_STARTED@,
                started_at@,
                seq![
                    name_entry(*wf),
                    definition_entry(*wf),
                    text_entry("startedAt"@, started_at@),
                ],
            ),
    {
        let definition = Builder::new().with_text("name", wf.name.as_str()).with_text(
            "namespace",
            wf.namespace.as_str(),
        ).with_text("version", wf.version.as_str());
        assert(definition.entries@ =~= seq![
            text_entry("name"@, wf.name@),
            text_entry("namespace"@, wf.namespace@),
            text_entry("version"@, wf.version@),
        ]);
        let data = self.named(wf).with("definition", Value::Object(definition.object)).with_text(
            "startedAt",
            started_at,
        );
        assert(data.entries@ =~= seq![
            name_entry(*wf),
            definition_entry(*wf),
            text_entry("startedAt"@, started_at@),
        ]);
        let id = concat2(execution_id, ".started");
        self.emit(id.as_str(), wf, WORKFLOW_STARTED, started_at, data)
    }

    /// A workflow ran to completion.
    pub fn workflow_completed(
        &self,
        wf: &WorkflowRef,
        execution_id: &str,
        completed_at: &str,
    ) -> (r: EventMessage)
        ensures
            r@ == lifecycle_event(
                execution_id@ + ".completed"@,
                *wf,
                WORKFLOW_COMPLETED@,
                completed_at@,
                seq![name_entry(*wf), text_entry("completedAt"@, completed_at@)],
            ),
    {
        let data = self.named(wf).with_text("completedAt", completed_at);
        assert(data.entries@ =~= seq![
            name_entry(*wf),
            text_entry("completedAt"@, completed_at@),
        ]);
        let id = concat2(execution_id, ".completed");
        self.emit(id.as_str(), wf, WORKFLOW_COMPLETED, completed_at, data)
    }

    /// A workflow faulted.
    pub fn workflow_faulted(
        &self,
        wf: &WorkflowRef,
        execution_id: &str,
        faulted_at: &str,
        error: &Value,
    ) -> (r: EventMessage)
        ensures
            r@ == lifecycle_event(
                execution_id@ + ".faulted"@,
                *wf,
                WORKFLOW_FAULTED@,
                faulted_at@,
                seq![
                    name_entry(*wf),
                    text_entry("faultedAt"@, faulted_at@),
                    ("error"@, error@),
                ],
            ),
    {
        let data = self.named(wf).with_text("faultedAt", faulted_at).with("error", error.clone());
        assert(data.entries@ =~= seq![
            name_entry(*wf),
            text_entry("faultedAt"@, faulted_at@),
            ("error"@, error@),
        ]);
        let id = concat2(execution_id, ".faulted");
        self.emit(id.as_str(), wf, WORKFLOW_FAULTED, faulted_at, data)
    }

    /// A workflow was cancelled.
    pub fn workflow_cancelled(
        &self,
        wf: &WorkflowRef,
        execution_id: &str,
        cancelled_at: &str,
    ) -> (r: EventMessage)
        ensures
            r@ == lifecycle_event(
                execution_id@ + ".cancelled"@,
                *wf,
                WORKFLOW_CANCELLED@,
                cancelled_at@,
                seq![name_entry(*wf), text_entry("cancelledAt"@, cancelled_at@)],
            ),
    {
        let data = self.named(wf).with_text("cancelledAt", cancelled_at);
        assert(data.entries@ =~= seq![
            name_entry(*wf),
            text_entry("cancelledAt"@, cancelled_at@),
        ]);
        let id = concat2(execution_id, ".cancelled");
        self.emit(id.as_str(), wf, WORKFLOW_CANCELLED, cancelled_at, data)
    }

    /// The status of a workflow changed.
    pub fn workflow_status_changed(
        &self,
        wf: &WorkflowRef,
        execution_id: &str,
        from: &str,
        to: &str,
        time: &str,
    ) -> (r: EventMessage)
        ensures
            r@ == lifecycle_event(
                execution_id@ + ".status."@ + to@,
                *wf,
                WORKFLOW_STATUS_CHANGED@,
                time@,
                seq![name_entry(*wf), text_entry("from"@, from@), text_entry("to"@, to@)],
            ),
    {
        let data = self.named(wf).with_text("from", from).with_text("to", to);
        assert(data.entries@ =~= seq![
            name_entry(*wf),
            text_entry("from"@, from@),
            text_entry("to"@, to@),
        ]);
        let id = concat3(execution_id, ".status.", to);
        self.emit(id.as_str(), wf, WORKFLOW_STATUS_CHANGED, time, data)
    }

    /// A task was started.
    pub fn task_started(
        &self,
        wf: &WorkflowRef,
        execution_id: &str,
        task_id: &str,
        task_name: &str,
        started_at: &str,
    ) -> (r: EventMessage)
        ensures
            r@ == lifecycle_event(
                task_event_id(execution_id@, task_id@, ".started"@),
                *wf,
                TASK_STARTED@,
                started_at@,
                seq![
                    name_entry(*wf),
                    text_entry("executionId"@, execution_id@),
                    task_entry(task_id@, task_name@),
                    text_entry("startedAt"@, started_at@),
                ],
            ),
    {
        let data = self.task(wf, execution_id, task_id, task_name).with_text(
            "startedAt",
            started_at,
        );
        assert(data.entries@ =~= seq![
            name_entry(*wf),
            text_entry("executionId"@, execution_id@),
            task_entry(task_id@, task_name@),
            text_entry("startedAt"@, started_at@),
        ]);
        let id = self.task_id(execution_id, task_id, ".started");
        self.emit(id.as_str(), wf, TASK_STARTED, started_at, data)
    }

    /// A task ran to completion.
    pub fn task_completed(
        &self,
        wf: &WorkflowRef,
        execution_id: &str,
        task_id: &str,
        task_name: &str,
        completed_at: &str,
    ) -> (r: EventMessage)
        ensures
            r@ == lifecycle_event(
                task_event_id(execution_id@, task_id@, ".completed"@),
                *wf,
                TASK_COMPLETED@,
                completed_at@,
                seq![
                    name_entry(*wf),
                    text_entry("executionId"@, execution_id@),
                    task_entry(task_id@, task_name@),
                    text_entry("completedAt"@, completed_at@),
                ],
            ),
    {
        let data = self.task(wf, execution_id, task_id, task_name).with_text(
            "completedAt",
            completed_at,
        );
        assert(data.entries@ =~= seq![
            name_entry(*wf),
            text_entry("executionId"@, execution_id@),
            task_entry(task_id@, task_name@),
            text_entry("completedAt"@, completed_at@),
        ]);
        let id = self.task_id(execution_id, task_id, ".completed");
        self.emit(id.as_str(), wf, TASK_COMPLETED, completed_at, data)
    }

    /// A task faulted.
    pub fn task_faulted(
        &self,
        wf: &WorkflowRef,
        execution_id: &str,
        task_id: &str,
        task_name: &str,
        faulted_at: &str,
        error: &Value,
    ) -> (r: EventMessage)
        ensures
            r@ == lifecycle_event(
                task_event_id(execution_id@, task_id@, ".faulted"@),
                *wf,
                TASK_FAULTED@,
                faulted_at@,
                seq![
                    name_entry(*wf),
                    text_entry("executionId"@, execution_id@),
                    task_entry(task_id@, task_name@),
                    text_entry("faultedAt"@, faulted_at@),
                    ("error"@, error@),
                ],
            ),
    {
        let data = self.task(wf, execution_id, task_id, task_name).with_text(
            "faultedAt",
            faulted_at,
        ).with("error", error.clone());
        assert(data.entries@ =~= seq![
            name_entry(*wf),
            text_entry("executionId"@, execution_id@),
            task_entry(task_id@, task_name@),
            text_entry("faultedAt"@, faulted_at@),
            ("error"@, error@),
        ]);
        let id = self.task_id(execution_id, task_id, ".faulted");
        self.emit(id.as_str(), wf, TASK_FAULTED, faulted_at, data)
    }

    /// A task was retried.
    pub fn task_retried(
        &self,
        wf: &WorkflowRef,
        execution_id: &str,
        task_id: &str,
        task_name: &str,
        attempt: u32,
        retried_at: &str,
    ) -> (r: EventMessage)
        ensures
            r@ == lifecycle_event(
                task_event_id(execution_id@, task_id@, ".retried"@),
                *wf,
                TASK_RETRIED@,
                retried_at@,
                seq![
                    name_entry(*wf),
                    text_entry("executionId"@, execution_id@),
                    task_entry(task_id@, task_name@),
                    ("attempt"@, Json::Number(Number::PosInt(attempt as u64))),
                    text_entry("retriedAt"@, retried_at@),
                ],
            ),
    {
        let data = self.task(wf, execution_id, task_id, task_name).with(
            "attempt",
            Value::Number(Number::PosInt(attempt as u64)),
        ).with_text("retriedAt", retried_at);
        assert(data.entries@ =~= seq![
            name_entry(*wf),
            text_entry("executionId"@, execution_id@),
            task_entry(task_id@, task_name@),
            ("attempt"@, Json::Number(Number::PosInt(attempt as u64))),
            text_entry("retriedAt"@, retried_at@),
        ]);
        let id = self.task_id(execution_id, task_id, ".retried");
        self.emit(id.as_str(), wf, TASK_RETRIED, retried_at, data)
    }
}

} // verus!
