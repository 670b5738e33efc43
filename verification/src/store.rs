//! The storage of execution state.
use crate::dict::{
    Dict, Entries, entry, entry_views, lemma_view_of_entry, lemma_view_of_set, lemma_with_entry,
    with_entry,
};
use crate::document::{is_readable, json_value, read_json};
use crate::error::{ErrorKind, StandardErrorType, WorkflowError, is_error};
use crate::json::{Json, Value};
use crate::phase::{Phase, law_phase_round_trip, phase_named, phase_text};
use crate::text::{concat2, concat3, concat5, opt_view, text_eq};
use crate::value::{copy_option, json_text, option_json, write_json};
use vstd::prelude::*;

verus! {

broadcast use crate::json::group_json;

/// The state of one workflow execution.
#[derive(Debug)]
pub struct ExecutionRecord {
    /// Identifies the execution.
    pub execution_id: String,
    /// The qualified name of the workflow.
    pub workflow: String,
    /// The namespace of the workflow.
    pub namespace: String,
    /// The name of the workflow.
    pub name: String,
    /// The version of the workflow.
    pub version: String,
    /// The current phase.
    pub phase: Phase,
    /// The current context.
    pub context: Value,
    /// The current task.
    pub pointer: Value,
    /// The error, if there is one.
    pub error: Option<Value>,
    /// The start in epoch seconds.
    pub started_at: i64,
}

/// The model of an [`ExecutionRecord`].
pub ghost struct RecordModel {
    pub execution_id: Seq<char>,
    pub workflow: Seq<char>,
    pub namespace: Seq<char>,
    pub name: Seq<char>,
    pub version: Seq<char>,
    pub phase: Phase,
    pub context: Json,
    pub pointer: Json,
    pub error: Option<Json>,
    pub started_at: i64,
}

impl View for ExecutionRecord {
    type V = RecordModel;

    open spec fn view(&self) -> RecordModel {
        RecordModel {
            execution_id: self.execution_id@,
            workflow: self.workflow@,
            namespace: self.namespace@,
            name: self.name@,
            version: self.version@,
            phase: self.phase,
            context: self.context@,
            pointer: self.pointer@,
            error: option_json(self.error),
            started_at: self.started_at,
        }
    }
}

impl Clone for ExecutionRecord {
    fn clone(&self) -> (r: Self)
        ensures
            r@ == self@,
    {
        ExecutionRecord {
            execution_id: self.execution_id.clone(),
            workflow: self.workflow.clone(),
            namespace: self.namespace.clone(),
            name: self.name.clone(),
            version: self.version.clone(),
            phase: self.phase,
            context: self.context.clone(),
            pointer: self.pointer.clone(),
            error: copy_option(&self.error),
            started_at: self.started_at,
        }
    }
}

/// An event in the log of an execution.
#[derive(Debug)]
pub struct StoredEvent {
    /// Identifies the execution.
    pub execution_id: String,
    /// The number of the event.
    pub sequence: u64,
    /// The type of the event.
    pub event_type: String,
    /// What the event tells.
    pub payload: Value,
    /// When the event happened, in epoch seconds.
    pub timestamp: i64,
}

/// The model of a [`StoredEvent`].
pub ghost struct StoredModel {
    pub execution_id: Seq<char>,
    pub sequence: u64,
    pub event_type: Seq<char>,
    pub payload: Json,
    pub timestamp: i64,
}

impl View for StoredEvent {
    type V = StoredModel;

    open spec fn view(&self) -> StoredModel {
        StoredModel {
            execution_id: self.execution_id@,
            sequence: self.sequence,
            event_type: self.event_type@,
            payload: self.payload@,
            timestamp: self.timestamp,
        }
    }
}

impl Clone for StoredEvent {
    fn clone(&self) -> (r: Self)
        ensures
            r@ == self@,
    {
        StoredEvent {
            execution_id: self.execution_id.clone(),
            sequence: self.sequence,
            event_type: self.event_type.clone(),
            payload: self.payload.clone(),
            timestamp: self.timestamp,
        }
    }
}

/// The models of a list of events.
pub open spec fn stored_views(events: Seq<StoredEvent>) -> Seq<StoredModel> {
    events.map_values(|e: StoredEvent| e@)
}

/// The events of one execution, in order.
pub open spec fn events_for(log: Seq<StoredModel>, id: Seq<char>) -> Seq<StoredModel>
    decreases log.len(),
{
    if log.len() == 0 {
        Seq::empty()
    } else if log.last().execution_id == id {
        events_for(log.drop_last(), id).push(log.last())
    } else {
        events_for(log.drop_last(), id)
    }
}

/// The models of the records of a store.
pub open spec fn record_views(m: Entries<ExecutionRecord>) -> Seq<(Seq<char>, RecordModel)> {
    entry_views(m)
}

/// Stores execution state.
pub trait ExecutionStore {
    /// Creates a record.
    fn create(&mut self, record: ExecutionRecord) -> Result<(), WorkflowError>;

    /// Loads a record.
    fn load(&self, execution_id: &str) -> Result<Option<ExecutionRecord>, WorkflowError>;

    /// Updates a record.
    fn update(&mut self, record: &ExecutionRecord) -> Result<(), WorkflowError>;

    /// Appends an event to the log.
    fn append_event(&mut self, event: StoredEvent) -> Result<(), WorkflowError>;

    /// Lists the events of an execution.
    fn events(&self, execution_id: &str) -> Result<Vec<StoredEvent>, WorkflowError>;
}

/// A store in memory.
#[derive(Debug)]
pub struct InMemoryExecutionStore {
    records: Dict<ExecutionRecord>,
    events: Vec<StoredEvent>,
}

impl InMemoryExecutionStore {
    /// The records by execution.
    pub closed spec fn table(self) -> Seq<(Seq<char>, RecordModel)> {
        record_views(self.records@)
    }

    /// The log of events.
    pub closed spec fn log(self) -> Seq<StoredModel> {
        stored_views(self.events@)
    }

    /// An empty store.
    pub fn new() -> (r: Self)
        ensures
            r.table() == Seq::<(Seq<char>, RecordModel)>::empty(),
            r.log() == Seq::<StoredModel>::empty(),
    {
        let r = Self { records: Dict::new(), events: Vec::new() };
        assert(r.table() =~= Seq::empty());
        assert(r.log() =~= Seq::empty());
        r
    }
}

impl ExecutionStore for InMemoryExecutionStore {
    fn create(&mut self, record: ExecutionRecord) -> (r: Result<(), WorkflowError>)
        ensures
            r is Ok,
            final(self).table() == with_entry(
                old(self).table(),
                record@.execution_id,
                record@,
            ),
            final(self).log() == old(self).log(),
    {
        proof {
            lemma_view_of_set(self.records@, record.execution_id@, record);
        }
        let key = record.execution_id.clone();
        self.records.insert(key, record);
        Ok(())
    }

    fn load(&self, execution_id: &str) -> (r: Result<Option<ExecutionRecord>, WorkflowError>)
        ensures
            r is Ok,
            entry(self.table(), execution_id@) == (match r->Ok_0 {
                Some(record) => Some(record@),
                None => None,
            }),
    {
        proof {
            lemma_view_of_entry(self.records@, execution_id@);
        }
        match self.records.get(execution_id) {
            Some(record) => Ok(Some(record.clone())),
            None => Ok(None),
        }
    }

    fn update(&mut self, record: &ExecutionRecord) -> (r: Result<(), WorkflowError>)
        ensures
            r is Ok,
            final(self).table() == with_entry(
                old(self).table(),
                record@.execution_id,
                record@,
            ),
            final(self).log() == old(self).log(),
    {
        self.create(record.clone())
    }

    fn append_event(&mut self, event: StoredEvent) -> (r: Result<(), WorkflowError>)
        ensures
            r is Ok,
            final(self).table() == old(self).table(),
            final(self).log() == old(self).log().push(event@),
    {
        let ghost before = self.events@;
        self.events.push(event);
        assert(self.log() =~= stored_views(before).push(event@));
        Ok(())
    }

    fn events(&self, execution_id: &str) -> (r: Result<Vec<StoredEvent>, WorkflowError>)
        ensures
            r is Ok,
            stored_views(r->Ok_0@) == events_for(self.log(), execution_id@),
    {
        let ghost log = self.log();
        let mut out: Vec<StoredEvent> = Vec::new();
        let mut i: usize = 0;
        assert(stored_views(out@) =~= Seq::empty());
        while i < self.events.len()
            invariant
                i <= self.events.len(),
                log == stored_views(self.events@),
                stored_views(out@) == events_for(log.take(i as int), execution_id@),
            decreases self.events.len() - i,
        {
            proof {
                let next = log.take(i + 1);
                assert(next.drop_last() =~= log.take(i as int));
                assert(next.last() == self.events@[i as int]@);
            }
            if text_eq(self.events[i].execution_id.as_str(), execution_id) {
                let ghost before = out@;
                out.push(self.events[i].clone());
                assert(stored_views(out@) =~= stored_views(before).push(self.events@[i as int]@));
            }
            i += 1;
        }
        assert(log.take(self.events.len() as int) =~= log);
        Ok(out)
    }
}

/// What was created or updated is what is loaded, and no other record changes.
pub proof fn law_load_after_write(
    table: Seq<(Seq<char>, RecordModel)>,
    record: RecordModel,
    other: Seq<char>,
)
    ensures
        entry(with_entry(table, record.execution_id, record), record.execution_id) == Some(record),
        other != record.execution_id ==> entry(
            with_entry(table, record.execution_id, record),
            other,
        ) == entry(table, other),
{
    lemma_with_entry(table, record.execution_id, record, record.execution_id);
    lemma_with_entry(table, record.execution_id, record, other);
}

/// An event that was appended is the last one of its execution, and the events of
/// other executions stay as they are.
pub proof fn law_events_after_append(log: Seq<StoredModel>, event: StoredModel, id: Seq<char>)
    ensures
        events_for(log.push(event), id) == (if event.execution_id == id {
            events_for(log, id).push(event)
        } else {
            events_for(log, id)
        }),
{
    assert(log.push(event).drop_last() =~= log);
}

// ---------------------------------------------------------------------------
// Rows
// ---------------------------------------------------------------------------

/// A row of the table of executions. The values are kept as JSON text.
#[derive(Debug)]
pub struct ExecutionRow {
    pub execution_id: String,
    pub workflow: String,
    pub namespace: String,
    pub name: String,
    pub version: String,
    pub phase: String,
    pub context: String,
    pub pointer: String,
    pub error: Option<String>,
    pub started_at: i64,
}

/// The error of a database store.
pub open spec fn is_db_error(
    e: WorkflowError,
    store: Seq<char>,
    context: Seq<char>,
    cause: Seq<char>,
) -> bool {
    is_error(
        e,
        ErrorKind::Runtime,
        StandardErrorType::Runtime,
        store + " store "@ + context + ": "@ + cause,
    )
}

/// The error of a database store.
pub fn db_error(store: &str, context: &str, cause: &str) -> (r: WorkflowError)
    ensures
        is_db_error(r, store@, context@, cause@),
{
    let detail = concat5(store, " store ", context, ": ", cause);
    WorkflowError::detailed(ErrorKind::Runtime, StandardErrorType::Runtime, detail)
}

/// Whether a row holds a record.
pub open spec fn row_holds(row: ExecutionRow, r: RecordModel) -> bool {
    &&& row.execution_id@ == r.execution_id
    &&& row.workflow@ == r.workflow
    &&& row.namespace@ == r.namespace
    &&& row.name@ == r.name
    &&& row.version@ == r.version
    &&& row.phase@ == phase_text(r.phase)
    &&& row.context@ == json_text(r.context)
    &&& row.pointer@ == json_text(r.pointer)
    &&& opt_view(row.error) == (match r.error {
        Some(j) => Some(json_text(j)),
        None => None,
    })
    &&& row.started_at == r.started_at
}

/// The row of a record.
pub fn row_from_record(record: &ExecutionRecord) -> (r: ExecutionRow)
    ensures
        row_holds(r, record@),
{
    ExecutionRow {
        execution_id: record.execution_id.clone(),
        workflow: record.workflow.clone(),
        namespace: record.namespace.clone(),
        name: record.name.clone(),
        version: record.version.clone(),
        phase: record.phase.to_string(),
        context: write_json(&record.context),
        pointer: write_json(&record.pointer),
        error: match &record.error {
            Some(e) => Some(write_json(e)),
            None => None,
        },
        started_at: record.started_at,
    }
}

/// What decoding a JSON text gave: a value, or the decoder's message.
pub type Decoded = Result<Value, String>;

/// The model of what decoding gave.
pub type DecodedModel = Result<Json, Seq<char>>;

/// The model of what decoding gave.
pub open spec fn decoded_view(d: Decoded) -> DecodedModel {
    match d {
        Ok(v) => Ok(v@),
        Err(e) => Err(e@),
    }
}

/// The model of what decoding an optional text gave.
pub open spec fn decoded_option(d: Option<Decoded>) -> Option<DecodedModel> {
    match d {
        Some(x) => Some(decoded_view(x)),
        None => None,
    }
}

/// The record of a row whose values were decoded, or what is wrong with it: an
/// unknown phase first, then the first value that could not be decoded.
pub open spec fn is_record_of_row(
    r: Result<ExecutionRecord, WorkflowError>,
    store: Seq<char>,
    row: ExecutionRow,
    context: DecodedModel,
    pointer: DecodedModel,
    error: Option<DecodedModel>,
) -> bool {
    match phase_named(row.phase@) {
        None => r is Err && is_db_error(
            r->Err_0,
            store,
            "load"@,
            "unknown phase `"@ + row.phase@ + "`"@,
        ),
        Some(phase) => match (context, pointer, error) {
            (Err(e), _, _) => r is Err && is_db_error(r->Err_0, store, "decoding value"@, e),
            (_, Err(e), _) => r is Err && is_db_error(r->Err_0, store, "decoding value"@, e),
            (_, _, Some(Err(e))) => r is Err && is_db_error(
                r->Err_0,
                store,
                "decoding value"@,
                e,
            ),
            (Ok(c), Ok(p), x) => r is Ok && r->Ok_0@ == (RecordModel {
                execution_id: row.execution_id@,
                workflow: row.workflow@,
                namespace: row.namespace@,
                name: row.name@,
                version: row.version@,
                phase,
                context: c,
                pointer: p,
                error: match x {
                    Some(Ok(j)) => Some(j),
                    _ => None,
                },
                started_at: row.started_at,
            }),
        },
    }
}

/// Makes the record of a row whose JSON texts were decoded.
pub fn record_from_row(
    store: &str,
    row: ExecutionRow,
    context: Decoded,
    pointer: Decoded,
    error: Option<Decoded>,
) -> (r: Result<ExecutionRecord, WorkflowError>)
    ensures
        is_record_of_row(
            r,
            store@,
            row,
            decoded_view(context),
            decoded_view(pointer),
            decoded_option(error),
        ),
{
    let phase = match Phase::from_name(row.phase.as_str()) {
        Some(phase) => phase,
        None => {
            let cause = concat3("unknown phase `", row.phase.as_str(), "`");
            return Err(db_error(store, "load", cause.as_str()));
        },
    };
    let context = match context {
        Ok(v) => v,
        Err(e) => {
            return Err(db_error(store, "decoding value", e.as_str()));
        },
    };
    let pointer = match pointer {
        Ok(v) => v,
        Err(e) => {
            return Err(db_error(store, "decoding value", e.as_str()));
        },
    };
    let error = match error {
        Some(Ok(v)) => Some(v),
        Some(Err(e)) => {
            return Err(db_error(store, "decoding value", e.as_str()));
        },
        None => None,
    };
    Ok(
        ExecutionRecord {
            execution_id: row.execution_id,
            workflow: row.workflow,
            namespace: row.namespace,
            name: row.name,
            version: row.version,
            phase,
            context,
            pointer,
            error,
            started_at: row.started_at,
        },
    )
}

/// What `serde_json` reads from an optional text.
pub open spec fn optional_reading(text: Option<Seq<char>>) -> Option<DecodedModel> {
    match text {
        Some(t) => Some(json_value(t)),
        None => None,
    }
}

/// Whether the values of a record are read back from their JSON texts.
pub open spec fn is_readable_record(r: RecordModel) -> bool {
    &&& is_readable(r.context)
    &&& is_readable(r.pointer)
    &&& r.error matches Some(j) ==> is_readable(j)
}

/// Decodes a row. A record that was written to a row is read back from it, where its
/// values hold no doubles and are not nested too deep.
pub fn load_row(store: &str, row: ExecutionRow) -> (r: Result<ExecutionRecord, WorkflowError>)
    ensures
        is_record_of_row(
            r,
            store@,
            row,
            json_value(row.context@),
            json_value(row.pointer@),
            optional_reading(opt_view(row.error)),
        ),
        forall|record: RecordModel| #[trigger]
            row_holds(row, record) && is_readable_record(record) ==> r is Ok && r->Ok_0@ == record,
{
    let context = read_json(row.context.as_str());
    let pointer = read_json(row.pointer.as_str());
    let error = match &row.error {
        Some(t) => Some(read_json(t.as_str())),
        None => None,
    };
    proof {
        assert forall|record: RecordModel| #[trigger]
            row_holds(row, record) && is_readable_record(record) implies json_value(row.context@)
            == Ok::<Json, Seq<char>>(record.context) && json_value(row.pointer@) == Ok::<
            Json,
            Seq<char>,
        >(record.pointer) && optional_reading(opt_view(row.error)) == (match record.error {
            Some(j) => Some(Ok::<Json, Seq<char>>(j)),
            None => None,
        }) && phase_named(row.phase@) == Some(record.phase) by {
            assert(row.context@ == json_text(record.context));
            assert(row.pointer@ == json_text(record.pointer));
            match record.error {
                Some(j) => {
                    assert(opt_view(row.error) == Some(json_text(j)));
                },
                None => {},
            }
            law_phase_round_trip(record.phase);
        }
    }
    record_from_row(store, row, context, pointer, error)
}

/// Whether what was decoded is a value, or the error of the store.
pub open spec fn is_decoded_value(
    r: Result<Value, WorkflowError>,
    store: Seq<char>,
    value: DecodedModel,
) -> bool {
    match value {
        Ok(j) => r is Ok && r->Ok_0@ == j,
        Err(e) => r is Err && is_db_error(r->Err_0, store, "decoding value"@, e),
    }
}

/// Decodes the payload of an event. A payload that was written is read back, where it
/// holds no doubles and is not nested too deep.
pub fn load_payload(store: &str, text: &str) -> (r: Result<Value, WorkflowError>)
    ensures
        is_decoded_value(r, store@, json_value(text@)),
        forall|j: Json|
            text@ == #[trigger] json_text(j) && is_readable(j) ==> r is Ok && r->Ok_0@ == j,
{
    match read_json(text) {
        Ok(v) => Ok(v),
        Err(e) => Err(db_error(store, "decoding value", e.as_str())),
    }
}

/// A record that was written to a row is read back, where the decoder gives back
/// the values that were encoded.
pub proof fn law_row_round_trip(
    record: RecordModel,
    row: ExecutionRow,
    store: Seq<char>,
    r: Result<ExecutionRecord, WorkflowError>,
)
    requires
        row_holds(row, record),
        is_record_of_row(
            r,
            store,
            row,
            Ok(record.context),
            Ok(record.pointer),
            match record.error {
                Some(j) => Some(Ok(j)),
                None => None,
            },
        ),
    ensures
        r is Ok,
        r->Ok_0@ == record,
{
    law_phase_round_trip(record.phase);
}

/// In a table of rows by execution, the row that was written last for an execution is
/// the one that is found for it. Another execution is found as before, and one that
/// was never written is not found.
pub proof fn law_row_load_after_write(
    table: Seq<(Seq<char>, ExecutionRow)>,
    id: Seq<char>,
    row: ExecutionRow,
    other: Seq<char>,
)
    ensures
        entry(with_entry(table, id, row), id) == Some(row),
        other != id ==> entry(with_entry(table, id, row), other) == entry(table, other),
        entry(Seq::<(Seq<char>, ExecutionRow)>::empty(), other) is None,
{
    lemma_with_entry(table, id, row, id);
    lemma_with_entry(table, id, row, other);
}

/// The number of an event as the database keeps it, in 64 bits with a sign.
pub fn sequence_to_row(sequence: u64) -> (r: i64)
    ensures
        r == sequence_cell(sequence),
{
    if sequence <= i64::MAX as u64 {
        sequence as i64
    } else {
        (sequence as i128 - 0x1_0000_0000_0000_0000) as i64
    }
}

/// The number of an event from the database.
pub fn sequence_from_row(cell: i64) -> (r: u64)
    ensures
        r == cell_sequence(cell),
{
    if cell >= 0 {
        cell as u64
    } else {
        (cell as i128 + 0x1_0000_0000_0000_0000) as u64
    }
}

/// A 64-bit number with the same bits and a sign.
pub open spec fn sequence_cell(sequence: u64) -> int {
    if sequence <= i64::MAX {
        sequence as int
    } else {
        sequence - 0x1_0000_0000_0000_0000
    }
}

/// A 64-bit number with the same bits and no sign.
pub open spec fn cell_sequence(cell: i64) -> int {
    if cell >= 0 {
        cell as int
    } else {
        cell + 0x1_0000_0000_0000_0000
    }
}

/// The number of an event survives the database.
pub proof fn law_sequence_round_trip(sequence: u64)
    ensures
        cell_sequence(sequence_cell(sequence) as i64) == sequence,
{
}

/// The key of a record in a key-value store.
pub fn record_key(id: &str) -> (r: String)
    ensures
        r@ == "ows:exec:"@ + id@,
{
    concat2("ows:exec:", id)
}

/// The key of an event log in a key-value store.
pub fn events_key(id: &str) -> (r: String)
    ensures
        r@ == "ows:exec_events:"@ + id@,
{
    concat2("ows:exec_events:", id)
}

/// The keys of two executions differ, and no record key is an event key.
pub proof fn law_keys_differ(a: Seq<char>, b: Seq<char>)
    ensures
        a != b ==> "ows:exec:"@ + a != "ows:exec:"@ + b,
        a != b ==> "ows:exec_events:"@ + a != "ows:exec_events:"@ + b,
        "ows:exec:"@ + a != "ows:exec_events:"@ + b,
{
    reveal_strlit("ows:exec:");
    reveal_strlit("ows:exec_events:");
    let p = "ows:exec:"@;
    let q = "ows:exec_events:"@;
    assert((p + a).skip(p.len() as int) =~= a);
    assert((p + b).skip(p.len() as int) =~= b);
    assert((q + a).skip(q.len() as int) =~= a);
    assert((q + b).skip(q.len() as int) =~= b);
    assert((p + a)[8] == ':');
    assert((q + b)[8] == '_');
}

} // verus!
