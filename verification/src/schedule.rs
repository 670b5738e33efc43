//! Scheduling of workflow executions.
use crate::clock::Duration;
use crate::error::{ErrorKind, StandardErrorType, WorkflowError, is_error};
use crate::json::{Json, Object, Value};
use crate::text::{
    concat2, concat3, decimal, join, joined, lemma_decimal_reads_back, opt_view, u128_text,
    u64_text, usize_text, views,
};
use crate::value::{copy_text, inserted};
use vstd::prelude::*;

verus! {

broadcast use crate::json::group_json;

/// Information about the runtime, for the `$runtime` argument.
#[derive(Debug)]
pub struct RuntimeInfo {
    /// The name of the runtime.
    pub name: String,
    /// The version of the runtime.
    pub version: String,
    /// Further information, if there is any.
    pub metadata: Option<Object>,
}

/// The runtime's description as a value; absent metadata is left out.
pub open spec fn info_json(i: RuntimeInfo) -> Json {
    let m = Seq::<(Seq<char>, Json)>::empty();
    let m = inserted(m, "name"@, Json::String(i.name@));
    let m = inserted(m, "version"@, Json::String(i.version@));
    match i.metadata {
        Some(o) => Json::Object(inserted(m, "metadata"@, Json::Object(o@))),
        None => Json::Object(m),
    }
}

impl Default for RuntimeInfo {
    fn default() -> (r: Self)
        ensures
            r.name@ == "ows-runtime"@,
            r.version@ == "0.1.0"@,
            r.metadata is None,
    {
        Self { name: "ows-runtime".to_owned(), version: "0.1.0".to_owned(), metadata: None }
    }
}

impl RuntimeInfo {
    /// The runtime's description as a value.
    pub fn to_value(&self) -> (r: Value)
        ensures
            r@ == info_json(*self),
    {
        let mut o = Object::new();
        o.insert("name".to_owned(), Value::String(self.name.clone()));
        o.insert("version".to_owned(), Value::String(self.version.clone()));
        match &self.metadata {
            Some(m) => o.insert("metadata".to_owned(), Value::Object(m.clone())),
            None => {},
        }
        Value::Object(o)
    }
}

/// What starts a scheduled execution.
#[derive(Debug)]
pub enum ScheduleTrigger {
    /// A fixed interval.
    Every(Duration),
    /// A delay after completion.
    After(Duration),
    /// A cron schedule.
    Cron(String),
    /// One or more events.
    OnEvents(Vec<EventMessageLike>),
}

/// An event that starts an execution.
#[derive(Debug)]
pub struct EventMessageLike {
    /// The type of the event.
    pub type_: String,
    /// The source of the event, if any.
    pub source: Option<String>,
}

/// The model of an [`EventMessageLike`].
pub ghost struct EventLikeModel {
    pub type_: Seq<char>,
    pub source: Option<Seq<char>>,
}

impl View for EventMessageLike {
    type V = EventLikeModel;

    open spec fn view(&self) -> EventLikeModel {
        EventLikeModel { type_: self.type_@, source: opt_view(self.source) }
    }
}

/// The model of a [`ScheduleTrigger`].
pub ghost enum TriggerModel {
    Every(Duration),
    After(Duration),
    Cron(Seq<char>),
    OnEvents(Seq<EventLikeModel>),
}

impl View for ScheduleTrigger {
    type V = TriggerModel;

    open spec fn view(&self) -> TriggerModel {
        match self {
            ScheduleTrigger::Every(d) => TriggerModel::Every(*d),
            ScheduleTrigger::After(d) => TriggerModel::After(*d),
            ScheduleTrigger::Cron(c) => TriggerModel::Cron(c@),
            ScheduleTrigger::OnEvents(events) => TriggerModel::OnEvents(
                events@.map_values(|e: EventMessageLike| e@),
            ),
        }
    }
}

/// A workflow execution to schedule.
#[derive(Debug)]
pub struct ScheduledExecution {
    /// What starts the execution.
    pub trigger: ScheduleTrigger,
    /// The namespace of the workflow.
    pub workflow_namespace: String,
    /// The name of the workflow.
    pub workflow_name: String,
    /// The version of the workflow.
    pub workflow_version: String,
}

/// The model of a [`ScheduledExecution`].
pub ghost struct ExecutionModel {
    pub trigger: TriggerModel,
    pub workflow_namespace: Seq<char>,
    pub workflow_name: Seq<char>,
    pub workflow_version: Seq<char>,
}

impl View for ScheduledExecution {
    type V = ExecutionModel;

    open spec fn view(&self) -> ExecutionModel {
        ExecutionModel {
            trigger: self.trigger@,
            workflow_namespace: self.workflow_namespace@,
            workflow_name: self.workflow_name@,
            workflow_version: self.workflow_version@,
        }
    }
}

impl Clone for ScheduleTrigger {
    fn clone(&self) -> (r: Self)
        ensures
            r@ == self@,
    {
        match self {
            ScheduleTrigger::Every(d) => ScheduleTrigger::Every(*d),
            ScheduleTrigger::After(d) => ScheduleTrigger::After(*d),
            ScheduleTrigger::Cron(c) => ScheduleTrigger::Cron(c.clone()),
            ScheduleTrigger::OnEvents(events) => {
                let mut out: Vec<EventMessageLike> = Vec::new();
                let mut i: usize = 0;
                while i < events.len()
                    invariant
                        i <= events.len(),
                        out.len() == i,
                        forall|j: int| 0 <= j < i ==> (#[trigger] out@[j])@ == events@[j]@,
                    decreases events.len() - i,
                {
                    out.push(
                        EventMessageLike {
                            type_: events[i].type_.clone(),
                            source: copy_text(&events[i].source),
                        },
                    );
                    i += 1;
                }
                assert(out@.map_values(|e: EventMessageLike| e@) =~= events@.map_values(
                    |e: EventMessageLike| e@,
                ));
                ScheduleTrigger::OnEvents(out)
            },
        }
    }
}

impl Clone for ScheduledExecution {
    fn clone(&self) -> (r: Self)
        ensures
            r@ == self@,
    {
        ScheduledExecution {
            trigger: self.trigger.clone(),
            workflow_namespace: self.workflow_namespace.clone(),
            workflow_name: self.workflow_name.clone(),
            workflow_version: self.workflow_version.clone(),
        }
    }
}

/// A handle to a scheduled execution.
#[derive(Clone)]
pub struct ScheduledHandle<F> {
    /// Identifies the schedule.
    pub id: String,
    /// Cancels the execution.
    pub cancel: F,
}

impl<F> ScheduledHandle<F> {
    /// A handle.
    pub fn new(id: String, cancel: F) -> (r: Self)
        ensures
            r.id == id,
            r.cancel == cancel,
    {
        Self { id, cancel }
    }
}

/// Registers executions.
pub trait Scheduler {
    /// What cancels an execution.
    type Cancel;

    /// Registers an execution and returns the handle of the schedule.
    fn schedule(&mut self, execution: ScheduledExecution) -> Result<
        ScheduledHandle<Self::Cancel>,
        WorkflowError,
    >;
}

/// The cancellation of an execution that was never started: it does nothing.
#[derive(Debug, Clone, Copy, PartialEq, Eq, Structural)]
pub struct NoCancel;

/// A scheduler that does nothing.
#[derive(Debug, Clone, Copy)]
pub struct NoopScheduler;

impl NoopScheduler {
    /// The identity that the scheduler gives to an execution: the notation of its
    /// trigger and the number of the process.
    pub fn schedule_id(&self, trigger: &str, process: u32) -> (r: String)
        ensures
            r@ == trigger@ + "-"@ + decimal(process as nat),
    {
        let number = u64_text(process as u64);
        concat3(trigger, "-", number.as_str())
    }
}

/// A scheduler that records executions and never starts them.
#[derive(Debug)]
pub struct RecordingScheduler {
    scheduled: Vec<ScheduledExecution>,
}

/// The models of a list of executions.
pub open spec fn execution_views(items: Seq<ScheduledExecution>) -> Seq<ExecutionModel> {
    items.map_values(|e: ScheduledExecution| e@)
}

impl RecordingScheduler {
    /// The executions that were recorded, in order.
    pub closed spec fn log(self) -> Seq<ExecutionModel> {
        execution_views(self.scheduled@)
    }

    /// A scheduler without records.
    pub fn new() -> (r: Self)
        ensures
            r.log() == Seq::<ExecutionModel>::empty(),
    {
        let r = Self { scheduled: Vec::new() };
        assert(r.log() =~= Seq::empty());
        r
    }

    /// A copy of the executions that were recorded.
    pub fn recorded(&self) -> (r: Vec<ScheduledExecution>)
        ensures
            execution_views(r@) == self.log(),
    {
        let mut out: Vec<ScheduledExecution> = Vec::new();
        let mut i: usize = 0;
        while i < self.scheduled.len()
            invariant
                i <= self.scheduled.len(),
                out.len() == i,
                forall|j: int| 0 <= j < i ==> (#[trigger] out@[j])@ == self.scheduled@[j]@,
            decreases self.scheduled.len() - i,
        {
            out.push(self.scheduled[i].clone());
            i += 1;
        }
        assert(execution_views(out@) =~= self.log());
        out
    }
}

impl Default for RecordingScheduler {
    fn default() -> (r: Self)
        ensures
            r.log() == Seq::<ExecutionModel>::empty(),
    {
        Self::new()
    }
}

impl Clone for RecordingScheduler {
    /// A recorder with the same log. What is recorded later by one of the two does not
    /// show in the other; the program shares a log by sharing one recorder.
    fn clone(&self) -> (r: Self)
        ensures
            r.log() == self.log(),
    {
        let scheduled = self.recorded();
        Self { scheduled }
    }
}

/// Whether a log is another one with an execution recorded under an identity: the
/// number of the executions before it.
pub open spec fn is_recorded(
    before: Seq<ExecutionModel>,
    execution: ExecutionModel,
    after: Seq<ExecutionModel>,
    id: Seq<char>,
) -> bool {
    &&& after == before.push(execution)
    &&& id == "sched-"@ + decimal(before.len())
}

/// Executions that are recorded one after the other on a new recorder are its log,
/// in that order, and their identities are numbered from zero. The logs are those
/// before the first and after each execution.
pub proof fn law_recorded_in_order(
    logs: Seq<Seq<ExecutionModel>>,
    executions: Seq<ExecutionModel>,
    ids: Seq<Seq<char>>,
)
    requires
        logs.len() == executions.len() + 1,
        ids.len() == executions.len(),
        logs[0] == Seq::<ExecutionModel>::empty(),
        forall|i: int|
            0 <= i < executions.len() ==> is_recorded(
                #[trigger] logs[i],
                executions[i],
                logs[i + 1],
                ids[i],
            ),
    ensures
        logs.last() == executions,
        forall|i: int|
            0 <= i < ids.len() ==> #[trigger] ids[i] == "sched-"@ + decimal(i as nat),
    decreases executions.len(),
{
    if executions.len() == 0 {
        assert(logs.last() =~= executions);
    } else {
        let n = executions.len() - 1;
        let (l, e, d) = (logs.drop_last(), executions.drop_last(), ids.drop_last());
        assert forall|i: int| 0 <= i < e.len() implies is_recorded(
            #[trigger] l[i],
            e[i],
            l[i + 1],
            d[i],
        ) by {
            assert(is_recorded(logs[i], executions[i], logs[i + 1], ids[i]));
        }
        law_recorded_in_order(l, e, d);
        assert(l.last() == logs[n]);
        assert(is_recorded(logs[n], executions[n], logs[n + 1], ids[n]));
        assert(logs.last() =~= executions);
        assert forall|i: int| 0 <= i < ids.len() implies #[trigger] ids[i] == "sched-"@ + decimal(
            i as nat,
        ) by {
            if i < n {
                assert(d[i] == ids[i]);
            }
        }
    }
}

impl Scheduler for RecordingScheduler {
    type Cancel = NoCancel;

    fn schedule(&mut self, execution: ScheduledExecution) -> (r: Result<
        ScheduledHandle<NoCancel>,
        WorkflowError,
    >)
        ensures
            r is Ok,
            is_recorded(old(self).log(), execution@, final(self).log(), r->Ok_0.id@),
    {
        let number = usize_text(self.scheduled.len());
        let id = concat2("sched-", number.as_str());
        let ghost before = self.scheduled@;
        self.scheduled.push(execution);
        assert(self.log() =~= execution_views(before).push(execution@));
        Ok(ScheduledHandle::new(id, NoCancel))
    }
}

/// The identities of two schedules of one recorder differ.
pub proof fn law_schedule_ids_differ(m: nat, n: nat)
    requires
        m != n,
    ensures
        "sched-"@ + decimal(m) != "sched-"@ + decimal(n),
{
    lemma_decimal_reads_back(m);
    lemma_decimal_reads_back(n);
    let head = "sched-"@;
    let (a, b) = (head + decimal(m), head + decimal(n));
    assert(a.skip(head.len() as int) =~= decimal(m));
    assert(b.skip(head.len() as int) =~= decimal(n));
}

// ---------------------------------------------------------------------------
// Cron
// ---------------------------------------------------------------------------

/// The message with which the cron parser refuses an expression, if it does.
pub uninterp spec fn cron_refusal(expression: Seq<char>) -> Option<Seq<char>>;

/// The next time of a cron schedule after a time, both in epoch seconds.
pub uninterp spec fn cron_next(expression: Seq<char>, after: i64) -> Option<i64>;

/// Trusted: `cron::Schedule::from_str` accepts an expression, or refuses it with
/// a message, by the expression alone.
#[verifier::external_body]
fn cron_check(expression: &str) -> (r: Option<String>)
    ensures
        opt_view(r) == cron_refusal(expression@),
{
    expression.parse::<cron::Schedule>().err().map(|e| e.to_string())
}

/// The last time that `chrono` can represent, in epoch seconds. The search for
/// the next time of a schedule starts one second later, so it cannot start here.
pub const LAST_TIME: i64 = 8_210_266_876_799;

/// The end of the last year that a cron schedule covers, in epoch seconds.
pub const CRON_END: i64 = 4_133_980_800;

/// Trusted: the time that the first step of `cron::Schedule::after` gives for a
/// start time in epoch seconds. There is none for a start time that
/// `chrono::TimeZone::timestamp_opt` does not accept. The result depends on the
/// expression and the start time alone; it is behind the start time and not
/// behind the year 2100, the last that `cron` covers.
#[verifier::external_body]
fn cron_step(expression: &str, after: i64) -> (r: Option<i64>)
    requires
        cron_refusal(expression@) is None,
        after != LAST_TIME,
    ensures
        r == cron_next(expression@, after),
        r matches Some(t) ==> after < t < CRON_END,
{
    let start = chrono::TimeZone::timestamp_opt(&chrono::Utc, after, 0).single()?;
    let schedule = expression.parse::<cron::Schedule>().ok()?;
    let next = schedule.after(&start).next()?;
    Some(next.timestamp())
}

/// A valid cron expression.
#[derive(Debug)]
pub struct CronSchedule {
    expression: String,
}

/// The first `n` times of a cron schedule after a time, or as many as there are.
pub open spec fn cron_times(expression: Seq<char>, after: i64, n: nat) -> Seq<i64>
    decreases n,
{
    if n == 0 {
        Seq::empty()
    } else {
        match cron_next(expression, after) {
            Some(t) => seq![t] + cron_times(expression, t, (n - 1) as nat),
            None => Seq::empty(),
        }
    }
}

/// Whether an error reports the refusal of a cron expression.
pub open spec fn is_cron_error(
    e: WorkflowError,
    expression: Seq<char>,
    message: Seq<char>,
) -> bool {
    is_error(
        e,
        ErrorKind::Schema,
        StandardErrorType::Validation,
        "invalid cron expression `"@ + expression + "`: "@ + message,
    )
}

/// The error for a cron expression that was refused with a message.
pub fn cron_error(expression: &str, message: &str) -> (r: WorkflowError)
    ensures
        is_cron_error(r, expression@, message@),
{
    let mut detail = concat3("invalid cron expression `", expression, "`: ");
    detail.append(message);
    WorkflowError::detailed(ErrorKind::Schema, StandardErrorType::Validation, detail)
}

impl CronSchedule {
    /// The text of the expression.
    pub closed spec fn source(self) -> Seq<char> {
        self.expression@
    }

    #[verifier::type_invariant]
    closed spec fn is_valid(self) -> bool {
        cron_refusal(self.expression@) is None
    }

    /// The text of the expression.
    pub fn expression(&self) -> (r: &str)
        ensures
            r@ == self.source(),
    {
        self.expression.as_str()
    }

    /// Parses a cron expression.
    pub fn parse(expression: &str) -> (r: Result<Self, WorkflowError>)
        ensures
            match cron_refusal(expression@) {
                None => r is Ok && r->Ok_0.source() == expression@,
                Some(message) => r is Err && is_cron_error(r->Err_0, expression@, message),
            },
    {
        match cron_check(expression) {
            None => Ok(Self { expression: expression.to_owned() }),
            Some(message) => Err(cron_error(expression, message.as_str())),
        }
    }

    /// The next time after a time, in epoch seconds.
    pub fn next_after_epoch(&self, epoch_seconds: i64) -> (r: Option<i64>)
        requires
            epoch_seconds != LAST_TIME,
        ensures
            r == cron_next(self.source(), epoch_seconds),
            r matches Some(t) ==> epoch_seconds < t < CRON_END,
    {
        proof {
            use_type_invariant(self);
        }
        cron_step(self.expression.as_str(), epoch_seconds)
    }

    /// The next times after a time, in epoch seconds. Each is behind the one
    /// before it.
    pub fn next_after_epoch_n(&self, epoch_seconds: i64, n: usize) -> (r: Vec<i64>)
        requires
            epoch_seconds != LAST_TIME,
        ensures
            r@ == cron_times(self.source(), epoch_seconds, n as nat),
            forall|i: int| 0 <= i < r@.len() ==> epoch_seconds < #[trigger] r@[i] < CRON_END,
            forall|i: int, j: int| 0 <= i < j < r@.len() ==> #[trigger] r@[i] < #[trigger] r@[j],
    {
        let mut out: Vec<i64> = Vec::new();
        let mut after: i64 = epoch_seconds;
        let mut left: usize = n;
        let ghost total = cron_times(self.source(), epoch_seconds, n as nat);
        assert(Seq::<i64>::empty() + total =~= total);
        while left > 0
            invariant
                left <= n,
                total == cron_times(self.source(), epoch_seconds, n as nat),
                total == out@ + cron_times(self.source(), after, left as nat),
                after != LAST_TIME,
                epoch_seconds <= after,
                forall|i: int|
                    0 <= i < out@.len() ==> epoch_seconds < #[trigger] out@[i] <= after && out@[i]
                        < CRON_END,
                forall|i: int, j: int|
                    0 <= i < j < out@.len() ==> #[trigger] out@[i] < #[trigger] out@[j],
            decreases left,
        {
            let ghost before = out@;
            match self.next_after_epoch(after) {
                Some(t) => {
                    out.push(t);
                    proof {
                        let rest = cron_times(self.source(), t, (left - 1) as nat);
                        assert(before + (seq![t] + rest) =~= before.push(t) + rest);
                    }
                    after = t;
                    left -= 1;
                },
                None => {
                    assert(out@ + Seq::<i64>::empty() =~= out@);
                    return out;
                },
            }
        }
        assert(out@ + Seq::<i64>::empty() =~= out@);
        out
    }
}

/// Asking for more times gives the same times first, and at most as many as were
/// asked for.
pub proof fn law_cron_times_prefix(expression: Seq<char>, after: i64, m: nat, n: nat)
    requires
        m <= n,
    ensures
        cron_times(expression, after, m).is_prefix_of(cron_times(expression, after, n)),
        cron_times(expression, after, m).len() <= m,
    decreases m,
{
    if m > 0 {
        match cron_next(expression, after) {
            Some(t) => {
                law_cron_times_prefix(expression, t, (m - 1) as nat, (n - 1) as nat);
                let (a, b) = (
                    cron_times(expression, t, (m - 1) as nat),
                    cron_times(expression, t, (n - 1) as nat),
                );
                assert((seq![t] + a) =~= (seq![t] + b).take(1 + a.len() as int));
            },
            None => {},
        }
    }
}

// ---------------------------------------------------------------------------
// Descriptions
// ---------------------------------------------------------------------------

/// The types of a list of events.
pub open spec fn event_types(events: Seq<EventLikeModel>) -> Seq<Seq<char>> {
    events.map_values(|e: EventLikeModel| e.type_)
}

/// The description of a trigger.
pub open spec fn trigger_text(t: TriggerModel) -> Seq<char> {
    match t {
        TriggerModel::Every(d) => "every "@ + decimal(d.total() / 1_000_000) + "ms"@,
        TriggerModel::After(d) => "after "@ + decimal(d.total() / 1_000_000) + "ms"@,
        TriggerModel::Cron(c) => "cron `"@ + c + "`"@,
        TriggerModel::OnEvents(events) => "on events ["@ + joined(event_types(events), ", "@)
            + "]"@,
    }
}

/// A description of a trigger for people.
pub fn describe_trigger(trigger: &ScheduleTrigger) -> (r: String)
    ensures
        r@ == trigger_text(trigger@),
{
    match trigger {
        ScheduleTrigger::Every(d) => {
            let millis = u128_text(d.as_millis());
            concat3("every ", millis.as_str(), "ms")
        },
        ScheduleTrigger::After(d) => {
            let millis = u128_text(d.as_millis());
            concat3("after ", millis.as_str(), "ms")
        },
        ScheduleTrigger::Cron(c) => concat3("cron `", c.as_str(), "`"),
        ScheduleTrigger::OnEvents(events) => {
            let mut types: Vec<String> = Vec::new();
            let mut i: usize = 0;
            while i < events.len()
                invariant
                    i <= events.len(),
                    types.len() == i,
                    forall|j: int| 0 <= j < i ==> (#[trigger] types@[j])@ == events@[j].type_@,
                decreases events.len() - i,
            {
                types.push(events[i].type_.clone());
                i += 1;
            }
            assert(views(types@) =~= event_types(
                events@.map_values(|e: EventMessageLike| e@),
            ));
            let list = join(&types, ", ");
            concat3("on events [", list.as_str(), "]")
        },
    }
}

} // verus!
