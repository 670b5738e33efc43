//! What holds of the core of the runtime: policies, phases, secrets, clocks, schedules,
//! contexts, stores and lifecycle events.
use crate::builder::{members_of, text_entry};
use crate::clock::{Duration, WORDS, advanced, epoch_of};
use crate::context::{
    ExpressionContext, ExpressionError, context_variables, expression_error_text, secret_members,
    with_optional,
};
use crate::dict::{Entries, entry, keys_increasing, lemma_with_entry};
use crate::json::{Json, Members, Object, Value};
use crate::lifecycle::{
    TASK_COMPLETED, TASK_FAULTED, TASK_RETRIED, TASK_STARTED, WORKFLOW_CANCELLED,
    WORKFLOW_COMPLETED, WORKFLOW_FAULTED, WORKFLOW_STARTED, WORKFLOW_STATUS_CHANGED, WorkflowRef,
    definition_entry, lifecycle_event, name_entry, task_entry, task_event_id,
};
use crate::phase::{Phase, phase_named, phase_text};
use crate::policy::{RuntimePolicy, host_matches, permits_host, permits_scheme};
use crate::schedule::{
    EventLikeModel, RuntimeInfo, TriggerModel, cron_next, cron_times, event_types, info_json,
    trigger_text,
};
use crate::secret::{entries_of, variable_char};
use crate::store::{
    ExecutionRow, RecordModel, StoredModel, cell_sequence, events_for, row_holds, sequence_cell,
};
use crate::testing::{call_endpoint, call_method, expanded, filled};
use crate::text::{
    decimal, find_from, joined, lemma_find_from, lemma_less_irreflexive, occurs_at, split_by,
    text_less,
};
use crate::value::{inserted, json_text, lemma_inserted_lookup, lookup, plain_text};
use vstd::prelude::*;

verus! {

// ---------------------------------------------------------------------------
// Policies
// ---------------------------------------------------------------------------

/// A host is permitted exactly where the network is, and it is an allowed host or stands
/// below one: it ends with a dot and the allowed host.
pub proof fn law_permitted_hosts(p: RuntimePolicy, host: Seq<char>)
    ensures
        permits_host(p, host) <==> p.allow_network && exists|i: int|
            0 <= i < p.allowed_hosts@.len() && {
                let allowed = #[trigger] p.allowed_hosts@[i]@;
                let before = host.len() - allowed.len();
                ||| host == allowed
                ||| before > 0 && host[before - 1] == '.' && host.skip(before) == allowed
            },
{
    reveal_strlit(".");
    assert forall|allowed: Seq<char>| #[trigger] host_matches(host, allowed) <==> {
        let before = host.len() - allowed.len();
        ||| host == allowed
        ||| before > 0 && host[before - 1] == '.' && host.skip(before) == allowed
    } by {
        let before = host.len() - allowed.len();
        let tail = "."@ + allowed;
        if before > 0 {
            let end = host.subrange(before - 1, host.len() as int);
            if tail.is_suffix_of(host) {
                assert(end == tail);
                assert(end[0] == host[before - 1]);
                assert(host.skip(before) =~= end.skip(1));
                assert(tail.skip(1) =~= allowed);
            }
            if host[before - 1] == '.' && host.skip(before) == allowed {
                assert(end =~= tail) by {
                    assert forall|k: int| 0 <= k < end.len() implies end[k] == tail[k] by {
                        if k > 0 {
                            assert(host.skip(before)[k - 1] == end[k]);
                        }
                    }
                }
            }
        }
    }
    if permits_host(p, host) {
        let i = choose|i: int|
            0 <= i < p.allowed_hosts@.len() && host_matches(host, #[trigger] p.allowed_hosts@[i]@);
        assert(host_matches(host, p.allowed_hosts@[i]@));
    }
}

/// A scheme is permitted exactly where the network is and the scheme is an allowed one.
pub proof fn law_permitted_schemes(p: RuntimePolicy, scheme: Seq<char>)
    ensures
        permits_scheme(p, scheme) <==> p.allow_network && exists|i: int|
            0 <= i < p.allowed_schemes@.len() && #[trigger] p.allowed_schemes@[i]@ == scheme,
{
}

// ---------------------------------------------------------------------------
// Phases
// ---------------------------------------------------------------------------

/// Each phase has its name, and a text that names no phase is none.
pub proof fn law_phase_names(s: Seq<char>)
    ensures
        phase_text(Phase::Pending) == "pending"@,
        phase_text(Phase::Running) == "running"@,
        phase_text(Phase::Waiting) == "waiting"@,
        phase_text(Phase::Suspended) == "suspended"@,
        phase_text(Phase::Cancelled) == "cancelled"@,
        phase_text(Phase::Faulted) == "faulted"@,
        phase_text(Phase::Completed) == "completed"@,
        phase_named(s) matches Some(p) ==> phase_text(p) == s,
{
}

// ---------------------------------------------------------------------------
// Secrets
// ---------------------------------------------------------------------------

/// In the variable of a secret letters are in upper case, digits stay, and any other
/// character is an underscore.
pub proof fn law_secret_variables(c: char)
    ensures
        'a' <= c <= 'z' ==> variable_char(c) == ((c as u32) - 32) as char,
        'A' <= c <= 'Z' ==> variable_char(c) == c,
        '0' <= c <= '9' ==> variable_char(c) == c,
        !('a' <= c <= 'z') && !('A' <= c <= 'Z') && !('0' <= c <= '9') ==> variable_char(c) == '_',
{
}

/// Of several pairs with one name the last one counts, and a name without a pair has no
/// secret.
pub proof fn law_secret_pairs(pairs: Seq<(&str, &str)>, pair: (&str, &str), name: Seq<char>)
    ensures
        entry(entries_of(Seq::<(&str, &str)>::empty()), name) is None,
        entry(entries_of(pairs.push(pair)), name) == if name == pair.0@ {
            Some(pair.1@)
        } else {
            entry(entries_of(pairs), name)
        },
{
    assert(pairs.push(pair).drop_last() =~= pairs);
    lemma_with_entry(entries_of(pairs), pair.0@, pair.1@, name);
}

// ---------------------------------------------------------------------------
// Clocks
// ---------------------------------------------------------------------------

/// A clock shows the sum of what it was advanced by, as long as 64 bits hold it, and the
/// epoch time of the system is the seconds that it reports.
pub proof fn law_clock(nanos: nat, by: Duration, seconds: u64)
    ensures
        nanos + by.total() < 0x1_0000_0000_0000_0000 ==> advanced(nanos, by) == nanos + by.total(),
        advanced(nanos, by) < 0x1_0000_0000_0000_0000,
        seconds <= 0x7fff_ffff_ffff_ffff ==> epoch_of(Some(seconds)) == seconds,
        epoch_of(None) == 0,
{
    if nanos + by.total() < 0x1_0000_0000_0000_0000 {
        vstd::arithmetic::div_mod::lemma_small_mod(nanos + by.total(), WORDS as nat);
    }
}

// ---------------------------------------------------------------------------
// Schedules
// ---------------------------------------------------------------------------

/// A trigger is described by what it waits for: whole milliseconds, a cron expression,
/// or the types of events.
pub proof fn law_trigger_descriptions(d: Duration, c: Seq<char>, events: Seq<EventLikeModel>)
    ensures
        exists|millis: nat|
            {
                &&& millis * 1_000_000 <= d.total() < (millis + 1) * 1_000_000
                &&& trigger_text(TriggerModel::Every(d)) == "every "@ + #[trigger] decimal(millis)
                    + "ms"@
                &&& trigger_text(TriggerModel::After(d)) == "after "@ + decimal(millis) + "ms"@
            },
        trigger_text(TriggerModel::Cron(c)) == "cron `"@ + c + "`"@,
        trigger_text(TriggerModel::OnEvents(events)) == "on events ["@ + joined(
            Seq::new(events.len(), |i: int| events[i].type_),
            ", "@,
        ) + "]"@,
{
    let millis = d.total() / 1_000_000;
    vstd::arithmetic::div_mod::lemma_fundamental_div_mod(d.total() as int, 1_000_000);
    assert(millis * 1_000_000 <= d.total() < (millis + 1) * 1_000_000);
    assert(trigger_text(TriggerModel::Every(d)) == "every "@ + decimal(millis) + "ms"@);
    assert(event_types(events) =~= Seq::new(events.len(), |i: int| events[i].type_));
}

/// The times of a cron schedule follow one another: each is the next one after the time
/// before it.
pub proof fn law_cron_times_follow(expression: Seq<char>, after: i64, n: nat, i: int)
    requires
        0 <= i < cron_times(expression, after, n).len(),
    ensures
        cron_next(
            expression,
            if i == 0 {
                after
            } else {
                cron_times(expression, after, n)[i - 1]
            },
        ) == Some(cron_times(expression, after, n)[i]),
        cron_times(expression, after, n).len() <= n,
        cron_times(expression, after, n).len() < n ==> cron_next(
            expression,
            cron_times(expression, after, n).last(),
        ) is None,
    decreases n,
{
    if n > 0 {
        match cron_next(expression, after) {
            Some(t) => {
                let less = (n - 1) as nat;
                let rest = cron_times(expression, t, less);
                let all = seq![t] + rest;
                assert(cron_times(expression, after, n) == all);
                lemma_cron_rest(expression, t, less);
                if i > 0 {
                    law_cron_times_follow(expression, t, less, i - 1);
                    assert(all[i] == rest[i - 1]);
                    if i > 1 {
                        assert(all[i - 1] == rest[i - 2]);
                    }
                }
                if rest.len() > 0 {
                    assert(all.last() == rest.last());
                }
            },
            None => {},
        }
    }
}

/// There are fewer times than asked only where the schedule has no more.
proof fn lemma_cron_rest(expression: Seq<char>, after: i64, n: nat)
    ensures
        cron_times(expression, after, n).len() <= n,
        cron_times(expression, after, n).len() < n ==> cron_next(
            expression,
            if cron_times(expression, after, n).len() == 0 {
                after
            } else {
                cron_times(expression, after, n).last()
            },
        ) is None,
    decreases n,
{
    if n > 0 {
        match cron_next(expression, after) {
            Some(t) => {
                let rest = cron_times(expression, t, (n - 1) as nat);
                lemma_cron_rest(expression, t, (n - 1) as nat);
                if rest.len() > 0 {
                    assert((seq![t] + rest).last() == rest.last());
                }
            },
            None => {},
        }
    }
}

/// The description of a runtime has its name and its version, and its metadata where
/// there is some.
pub proof fn law_runtime_description(i: RuntimeInfo)
    ensures
        info_json(i) is Object,
        lookup(info_json(i)->Object_0, "name"@) == Some(Json::String(i.name@)),
        lookup(info_json(i)->Object_0, "version"@) == Some(Json::String(i.version@)),
        lookup(info_json(i)->Object_0, "metadata"@) == (match i.metadata {
            Some(o) => Some(Json::Object(o@)),
            None => None,
        }),
{
    reveal_strlit("name");
    reveal_strlit("version");
    reveal_strlit("metadata");
    assert("name"@.len() == 4 && "version"@.len() == 7 && "metadata"@.len() == 8);
    let (name, version, metadata) = ("name"@, "version"@, "metadata"@);
    let none = Seq::<(Seq<char>, Json)>::empty();
    let a = inserted(none, name, Json::String(i.name@));
    let b = inserted(a, version, Json::String(i.version@));
    lemma_inserted_lookup(none, name, Json::String(i.name@), name);
    lemma_inserted_lookup(none, name, Json::String(i.name@), metadata);
    lemma_inserted_lookup(a, version, Json::String(i.version@), name);
    lemma_inserted_lookup(a, version, Json::String(i.version@), version);
    lemma_inserted_lookup(a, version, Json::String(i.version@), metadata);
    match i.metadata {
        Some(o) => {
            lemma_inserted_lookup(b, metadata, Json::Object(o@), name);
            lemma_inserted_lookup(b, metadata, Json::Object(o@), version);
            lemma_inserted_lookup(b, metadata, Json::Object(o@), metadata);
        },
        None => {},
    }
}

// ---------------------------------------------------------------------------
// Objects
// ---------------------------------------------------------------------------

/// In an object that is built member by member, each key has the value that was set for
/// it last, and a key that was never set has none.
pub proof fn law_built_members(entries: Seq<(Seq<char>, Json)>, key: Seq<char>)
    ensures
        forall|i: int|
            0 <= i < entries.len() && (#[trigger] entries[i]).0 == key && (forall|j: int|
                i < j < entries.len() ==> (#[trigger] entries[j]).0 != key) ==> lookup(
                members_of(entries),
                key,
            ) == Some(entries[i].1),
        (forall|i: int| 0 <= i < entries.len() ==> (#[trigger] entries[i]).0 != key) ==> lookup(
            members_of(entries),
            key,
        ) is None,
    decreases entries.len(),
{
    if entries.len() > 0 {
        let head = entries.drop_last();
        let last = entries.last();
        let n = entries.len() - 1;
        law_built_members(head, key);
        lemma_inserted_lookup(members_of(head), last.0, last.1, key);
        assert(entries[n] == last);
        assert forall|i: int| 0 <= i < n implies #[trigger] head[i] == entries[i] by {}
        assert forall|i: int|
            0 <= i < entries.len() && (#[trigger] entries[i]).0 == key && (forall|j: int|
                i < j < entries.len() ==> (#[trigger] entries[j]).0 != key) implies lookup(
            members_of(entries),
            key,
        ) == Some(entries[i].1) by {
            if i < n {
                assert(entries[n].0 != key);
                assert(head[i].0 == key);
                assert forall|j: int| i < j < head.len() implies (#[trigger] head[j]).0
                    != key by {
                    assert(entries[j].0 != key);
                }
            }
        }
        if forall|i: int| 0 <= i < entries.len() ==> (#[trigger] entries[i]).0 != key {
            assert(entries[n].0 != key);
            assert forall|i: int| 0 <= i < head.len() implies (#[trigger] head[i]).0 != key by {
                assert(entries[i].0 != key);
            }
        }
    }
}

// ---------------------------------------------------------------------------
// Contexts
// ---------------------------------------------------------------------------

/// What is found under a key after a member was set where there is a value for it.
proof fn lemma_optional(m: Members, key: Seq<char>, v: Option<Value>, other: Seq<char>)
    ensures
        lookup(with_optional(m, key, v), other) == if other == key && v is Some {
            Some(v.unwrap()@)
        } else {
            lookup(m, other)
        },
{
    match v {
        Some(j) => lemma_inserted_lookup(m, key, j@, other),
        None => {},
    }
}

/// The standard variables of a context: the context, the input, the output and the
/// secrets always, and the others where they are given.
pub proof fn law_context_variables(
    c: ExpressionContext,
    input: Json,
    output: Json,
    key: Seq<char>,
)
    requires
        c.extra_vars@.len() == 0,
    ensures
        ({
            let vars = context_variables(c, input, output);
            let optional = |v: Option<Value>|
                match v {
                    Some(j) => Some(j@),
                    None => None,
                };
            &&& key == "context"@ ==> lookup(vars, key) == Some(c.context@)
            &&& key == "input"@ ==> lookup(vars, key) == Some(input)
            &&& key == "output"@ ==> lookup(vars, key) == Some(output)
            &&& key == "secrets"@ ==> lookup(vars, key) == Some(
                Json::Object(secret_members(c.secrets@)),
            )
            &&& key == "authorization"@ ==> lookup(vars, key) == optional(c.authorization)
            &&& key == "task"@ ==> lookup(vars, key) == optional(c.task)
            &&& key == "workflow"@ ==> lookup(vars, key) == optional(c.workflow)
            &&& key == "runtime"@ ==> lookup(vars, key) == optional(c.runtime)
        }),
{
    reveal_strlit("context");
    reveal_strlit("input");
    reveal_strlit("output");
    reveal_strlit("secrets");
    reveal_strlit("authorization");
    reveal_strlit("task");
    reveal_strlit("workflow");
    reveal_strlit("runtime");
    assert("context"@.len() == 7 && "input"@.len() == 5 && "output"@.len() == 6);
    assert("secrets"@.len() == 7 && "authorization"@.len() == 13 && "task"@.len() == 4);
    assert("workflow"@.len() == 8 && "runtime"@.len() == 7);
    assert("context"@[0] == 'c' && "secrets"@[0] == 's' && "runtime"@[0] == 'r');
    let none = Seq::<(Seq<char>, Json)>::empty();
    let a = inserted(none, "context"@, c.context@);
    let b = inserted(a, "input"@, input);
    let d = inserted(b, "output"@, output);
    let secrets = Json::Object(secret_members(c.secrets@));
    let e = inserted(d, "secrets"@, secrets);
    let f = with_optional(e, "authorization"@, c.authorization);
    let g = with_optional(f, "task"@, c.task);
    let h = with_optional(g, "workflow"@, c.workflow);
    lemma_inserted_lookup(none, "context"@, c.context@, key);
    lemma_inserted_lookup(a, "input"@, input, key);
    lemma_inserted_lookup(b, "output"@, output, key);
    lemma_inserted_lookup(d, "secrets"@, secrets, key);
    lemma_optional(e, "authorization"@, c.authorization, key);
    lemma_optional(f, "task"@, c.task, key);
    lemma_optional(g, "workflow"@, c.workflow, key);
    lemma_optional(h, "runtime"@, c.runtime, key);
    assert(lookup(none, key) is None);
}

/// Every secret is a member of the secrets, as a string, and there is no other.
pub proof fn law_secrets_are_members(secrets: Entries<String>, name: Seq<char>)
    requires
        keys_increasing(secrets),
    ensures
        lookup(secret_members(secrets), name) == (match entry(secrets, name) {
            Some(s) => Some(Json::String(s@)),
            None => None,
        }),
    decreases secrets.len(),
{
    if secrets.len() > 0 {
        let head = secrets.drop_last();
        let last = secrets.last();
        assert forall|i: int, j: int| 0 <= i < j < head.len() implies text_less(
            #[trigger] head[i].0,
            #[trigger] head[j].0,
        ) by {
            assert(text_less(secrets[i].0, secrets[j].0));
        }
        law_secrets_are_members(head, name);
        lemma_inserted_lookup(secret_members(head), last.0, Json::String(last.1@), name);
        lemma_entry_push(head, last, name);
        assert(secrets =~= head.push(last));
        if name == last.0 && entry(head, name) is Some {
            let k = lemma_entry_place(head, name);
            assert(text_less(secrets[k].0, secrets[secrets.len() - 1].0));
            lemma_less_irreflexive(name);
        }
    }
}

/// What is found in entries and in one more.
proof fn lemma_entry_push<V>(m: Entries<V>, e: (Seq<char>, V), key: Seq<char>)
    ensures
        entry(m.push(e), key) == if entry(m, key) is Some {
            entry(m, key)
        } else if e.0 == key {
            Some(e.1)
        } else {
            None
        },
    decreases m.len(),
{
    if m.len() > 0 {
        assert(m.push(e).skip(1) =~= m.skip(1).push(e));
        lemma_entry_push(m.skip(1), e, key);
    } else {
        assert(m.push(e).skip(1) =~= Seq::empty());
        assert(entry(m.push(e).skip(1), key) is None);
        assert(m.push(e)[0] == e);
    }
}

/// The place of an entry that is found.
proof fn lemma_entry_place<V>(m: Entries<V>, key: Seq<char>) -> (k: int)
    requires
        entry(m, key) is Some,
    ensures
        0 <= k < m.len(),
        m[k].0 == key,
    decreases m.len(),
{
    if m[0].0 == key {
        0
    } else {
        let k = lemma_entry_place(m.skip(1), key);
        assert(m.skip(1)[k] == m[k + 1]);
        k + 1
    }
}

/// An error of an expression shows its message, and the expression where it is known.
pub proof fn law_expression_error_texts(e: ExpressionError)
    ensures
        e.expression is None ==> expression_error_text(e) == "expression error: "@ + e.message@,
        e.expression matches Some(x) ==> expression_error_text(e) == "expression error in `"@ + x@
            + "`: "@ + e.message@,
{
}

// ---------------------------------------------------------------------------
// Stores
// ---------------------------------------------------------------------------

/// The events of an execution are those of the log that belong to it, in their order.
pub proof fn law_events_of_execution(log: Seq<StoredModel>, id: Seq<char>)
    ensures
        events_for(log, id) == log.filter(|e: StoredModel| e.execution_id == id),
    decreases log.len(),
{
    reveal(Seq::filter);
    if log.len() > 0 {
        law_events_of_execution(log.drop_last(), id);
    }
}

/// A row of a record holds every part of it: texts as they are, the phase by its name,
/// and values by their JSON text.
pub proof fn law_row_parts(row: ExecutionRow, r: RecordModel)
    requires
        row_holds(row, r),
    ensures
        row.execution_id@ == r.execution_id,
        row.workflow@ == r.workflow,
        row.namespace@ == r.namespace,
        row.name@ == r.name,
        row.version@ == r.version,
        r.phase == Phase::Running ==> row.phase@ == "running"@,
        r.phase == Phase::Completed ==> row.phase@ == "completed"@,
        row.context@ == json_text(r.context),
        row.pointer@ == json_text(r.pointer),
        row.error is Some <==> r.error is Some,
        r.error is Some ==> row.error.unwrap()@ == json_text(r.error.unwrap()),
        row.started_at == r.started_at,
{
}

/// A number below 2^63 is kept by the database as it is.
pub proof fn law_small_sequences(sequence: u64)
    requires
        sequence <= 0x7fff_ffff_ffff_ffff,
    ensures
        sequence_cell(sequence) == sequence,
        cell_sequence(sequence as i64) == sequence,
{
}

// ---------------------------------------------------------------------------
// Lifecycle events
// ---------------------------------------------------------------------------

/// A lifecycle event has its identity, its type and its time, comes from its workflow,
/// and its data are what was put into it.
pub proof fn law_lifecycle_event(
    id: Seq<char>,
    wf: WorkflowRef,
    type_: Seq<char>,
    time: Seq<char>,
    entries: Seq<(Seq<char>, Json)>,
)
    ensures
        ({
            let e = lifecycle_event(id, wf, type_, time, entries);
            &&& e.id == id
            &&& e.type_ == type_
            &&& e.time == Some(time)
            &&& e.source == "/"@ + wf.namespace@ + "/"@ + wf.name@ + "/"@ + wf.version@
            &&& e.subject is None
            &&& e.data == Some(Json::Object(members_of(entries)))
            &&& e.extensions.len() == 0
        }),
{
}

/// The data of lifecycle events name the workflow by its name, version and namespace,
/// its definition by each of the three, and a task by its identity and its name.
pub proof fn law_lifecycle_data(wf: WorkflowRef, id: Seq<char>, name: Seq<char>)
    ensures
        name_entry(wf) == (
            "name"@,
            Json::String(wf.name@ + "-"@ + wf.version@ + "."@ + wf.namespace@),
        ),
        definition_entry(wf).0 == "definition"@,
        definition_entry(wf).1 is Object,
        lookup(definition_entry(wf).1->Object_0, "name"@) == Some(Json::String(wf.name@)),
        lookup(definition_entry(wf).1->Object_0, "namespace"@) == Some(
            Json::String(wf.namespace@),
        ),
        lookup(definition_entry(wf).1->Object_0, "version"@) == Some(Json::String(wf.version@)),
        task_entry(id, name).0 == "task"@,
        task_entry(id, name).1 is Object,
        lookup(task_entry(id, name).1->Object_0, "id"@) == Some(Json::String(id)),
        lookup(task_entry(id, name).1->Object_0, "name"@) == Some(Json::String(name)),
{
    reveal_strlit("name");
    reveal_strlit("namespace");
    reveal_strlit("version");
    reveal_strlit("id");
    assert("name"@.len() == 4 && "namespace"@.len() == 9 && "version"@.len() == 7);
    assert("id"@.len() == 2);
    let d = seq![
        text_entry("name"@, wf.name@),
        text_entry("namespace"@, wf.namespace@),
        text_entry("version"@, wf.version@),
    ];
    law_built_members(d, "name"@);
    law_built_members(d, "namespace"@);
    law_built_members(d, "version"@);
    assert(d[0].0 == "name"@ && d[1].0 == "namespace"@ && d[2].0 == "version"@);
    let t = seq![text_entry("id"@, id), text_entry("name"@, name)];
    law_built_members(t, "id"@);
    law_built_members(t, "name"@);
    assert(t[0].0 == "id"@ && t[1].0 == "name"@);
}

/// The types of lifecycle events.
pub proof fn law_lifecycle_types()
    ensures
        WORKFLOW_STARTED@ == "io.serverlessworkflow.workflow.started.v1"@,
        WORKFLOW_COMPLETED@ == "io.serverlessworkflow.workflow.completed.v1"@,
        WORKFLOW_FAULTED@ == "io.serverlessworkflow.workflow.faulted.v1"@,
        WORKFLOW_CANCELLED@ == "io.serverlessworkflow.workflow.cancelled.v1"@,
        WORKFLOW_STATUS_CHANGED@ == "io.serverlessworkflow.workflow.status-changed.v1"@,
        TASK_STARTED@ == "io.serverlessworkflow.task.started.v1"@,
        TASK_COMPLETED@ == "io.serverlessworkflow.task.completed.v1"@,
        TASK_FAULTED@ == "io.serverlessworkflow.task.faulted.v1"@,
        TASK_RETRIED@ == "io.serverlessworkflow.task.retried.v1"@,
{
}

/// The identities of the events of two tasks of one execution differ where the tasks
/// do.
pub proof fn law_task_event_ids(
    execution: Seq<char>,
    a: Seq<char>,
    b: Seq<char>,
    what: Seq<char>,
)
    ensures
        task_event_id(execution, a, what) == execution + "."@ + a + what,
        a != b ==> task_event_id(execution, a, what) != task_event_id(execution, b, what),
{
    let head = execution + "."@;
    let (x, y) = (task_event_id(execution, a, what), task_event_id(execution, b, what));
    assert(x.subrange(head.len() as int, x.len() - what.len()) =~= a);
    assert(y.subrange(head.len() as int, y.len() - what.len()) =~= b);
}

// ---------------------------------------------------------------------------
// Fakes for tests
// ---------------------------------------------------------------------------

/// A call names its method, GET by default, and its destination as a text or as the
/// `uri` of an object.
pub proof fn law_call_arguments(args: Members)
    ensures
        lookup(args, "method"@) matches Some(Json::String(s)) ==> call_method(args) == s,
        lookup(args, "method"@) is None ==> call_method(args) == "GET"@,
        lookup(args, "endpoint"@) matches Some(Json::String(s)) ==> call_endpoint(args) == s,
        lookup(args, "endpoint"@) matches Some(Json::Object(m)) ==> lookup(
            m,
            "uri"@,
        ) matches Some(Json::String(s)) ==> call_endpoint(args) == s,
        lookup(args, "endpoint"@) is None ==> call_endpoint(args).len() == 0,
{
}

/// A destination without placeholders stays as it is; one placeholder is replaced by
/// the text of the member that it names.
pub proof fn law_placeholders(
    before: Seq<char>,
    name: Seq<char>,
    behind: Seq<char>,
    m: Members,
    v: Json,
)
    requires
        !before.contains('{') && !name.contains('{') && !behind.contains('{'),
        !name.contains('}'),
        lookup(m, name) == Some(v),
    ensures
        expanded(before, 0, before, Json::Object(m)) == before,
        ({
            let template = before + "{"@ + name + "}"@ + behind;
            let text = if v is String {
                v->String_0
            } else {
                json_text(v)
            };
            expanded(template, 0, template, Json::Object(m)) == before + text + behind
        }),
{
    reveal_strlit("{");
    reveal_strlit("}");
    let input = Json::Object(m);
    lemma_no_placeholder(before, 0, before, input);
    let template = before + "{"@ + name + "}"@ + behind;
    let n = before.len() as int;
    let close = n + 1 + name.len();
    assert(template[n] == '{' && template[close] == '}');
    assert forall|i: int| 0 <= i < n implies template[i] != '{' by {
        assert(before.contains(before[i]));
        assert(template[i] == before[i]);
    }
    lemma_before_placeholder(template, 0, n, template, input);
    lemma_find_from(template, seq!['}'], n + 1);
    assert(template.subrange(close, close + 1) =~= seq!['}']);
    assert(occurs_at(template, seq!['}'], close));
    assert forall|i: int| n + 1 <= i < close implies !occurs_at(template, seq!['}'], i) by {
        assert(name.contains(name[i - n - 1]));
        assert(template[i] == name[i - n - 1]);
        assert(template.subrange(i, i + 1)[0] == template[i]);
    }
    assert(find_from(template, seq!['}'], n + 1) == Some(close));
    assert(template.subrange(n + 1, close) =~= name);
    let uri = filled(template, name, input);
    assert forall|i: int| close < i < template.len() implies template[i] != '{' by {
        assert(behind.contains(behind[i - close - 1]));
        assert(template[i] == behind[i - close - 1]);
    }
    lemma_before_placeholder(template, close + 1, template.len() as int, uri, input);
    let mark = "{"@ + name + "}"@;
    assert(expanded(template, n, template, input) == expanded(template, close + 1, uri, input));
    assert(expanded(template, template.len() as int, uri, input) == uri);
    assert(template =~= before + mark + behind);
    lemma_one_place(before, mark, behind, template);
    let text = plain_text(v);
    assert(uri == joined(seq![before, behind], text));
    assert(seq![before, behind].drop_last() =~= seq![before]);
    assert(seq![before, behind].last() == behind);
    assert(joined(seq![before], text) == before);
}

/// A template without an opening brace from an index on changes nothing.
proof fn lemma_no_placeholder(template: Seq<char>, i: int, uri: Seq<char>, input: Json)
    requires
        0 <= i <= template.len(),
        !template.contains('{'),
    ensures
        expanded(template, i, uri, input) == uri,
    decreases template.len() - i,
{
    if i < template.len() {
        assert(template.contains(template[i]));
        lemma_no_placeholder(template, i + 1, uri, input);
    }
}

/// Characters that are no opening brace are skipped.
proof fn lemma_before_placeholder(
    template: Seq<char>,
    i: int,
    end: int,
    uri: Seq<char>,
    input: Json,
)
    requires
        0 <= i <= end <= template.len(),
        forall|k: int| i <= k < end ==> template[k] != '{',
    ensures
        expanded(template, i, uri, input) == expanded(template, end, uri, input),
    decreases end - i,
{
    if i < end {
        lemma_before_placeholder(template, i + 1, end, uri, input);
    }
}

/// A mark that starts with a brace stands once between texts without one.
proof fn lemma_one_place(
    before: Seq<char>,
    mark: Seq<char>,
    behind: Seq<char>,
    s: Seq<char>,
)
    requires
        mark.len() > 0,
        mark[0] == '{',
        !before.contains('{'),
        !behind.contains('{'),
        s == before + mark + behind,
    ensures
        split_by(s, mark) == seq![before, behind],
{
    let n = before.len() as int;
    lemma_found_behind(before, mark, behind);
    assert(s.take(n) =~= before);
    assert(s.skip(n + mark.len()) =~= behind);
    lemma_not_found(behind, mark);
    assert(split_by(behind, mark) == seq![behind]);
    assert(seq![before] + seq![behind] =~= seq![before, behind]);
}

/// A mark whose first character stands nowhere is not found.
proof fn lemma_not_found(t: Seq<char>, mark: Seq<char>)
    requires
        mark.len() > 0,
        !t.contains(mark[0]),
    ensures
        find_from(t, mark, 0) is None,
{
    lemma_find_from(t, mark, 0);
    if find_from(t, mark, 0) is Some {
        let at = find_from(t, mark, 0).unwrap();
        assert(t.subrange(at, at + mark.len())[0] == t[at]);
        assert(t.contains(t[at]));
    }
}

/// A mark behind a text without its first character is found there.
proof fn lemma_found_behind(before: Seq<char>, mark: Seq<char>, behind: Seq<char>)
    requires
        mark.len() > 0,
        !before.contains(mark[0]),
    ensures
        find_from(before + mark + behind, mark, 0) == Some(before.len() as int),
{
    let s = before + mark + behind;
    let n = before.len() as int;
    assert(s.subrange(n, n + mark.len()) =~= mark);
    assert forall|j: int| 0 <= j < n implies #[trigger] s[j] != mark[0] by {
        assert(before.contains(before[j]));
        assert(s[j] == before[j]);
    }
    lemma_found_from(s, mark, 0, n);
}

/// A mark is found behind characters that are not its first one.
proof fn lemma_found_from(s: Seq<char>, mark: Seq<char>, from: int, n: int)
    requires
        0 <= from <= n,
        mark.len() > 0,
        occurs_at(s, mark, n),
        forall|j: int| from <= j < n ==> #[trigger] s[j] != mark[0],
    ensures
        find_from(s, mark, from) == Some(n),
    decreases n - from,
{
    if from < n {
        assert(s[from] != mark[0]);
        if occurs_at(s, mark, from) {
            assert(s.subrange(from, from + mark.len())[0] == s[from]);
        }
        lemma_found_from(s, mark, from + 1, n);
    }
}

} // verus!
