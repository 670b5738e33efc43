//! Definitions in the model of `serverless_workflow_core`.
//!
//! The outside crate decides which values are definitions. What it makes of one is
//! written back as a value, and the library reads from that what its rules look at.
use crate::definition::norm_scope;
use crate::document::{from_node, held, node_json, to_node};
use crate::json::{Json, Members, Value, jsons};
use crate::text::opt_view;
use crate::validate::{
    BodyModel, CaseModel, Definition, DefinitionModel, EntryModel, SwitchCase, Task, TaskBody,
    TaskEntry, TaskList, TaskModel, case_model, case_models, entry_model,
};
use crate::value::{is_canonical, lookup};
use serde_json::Value as Node;
use serverless_workflow_core::models::workflow::WorkflowDefinition;
use vstd::prelude::*;

verus! {

broadcast use crate::json::group_json;

/// A definition of `serverless_workflow_core`.
#[verifier::external_type_specification]
#[verifier::external_body]
pub struct WorkflowType(WorkflowDefinition);

/// The value that a definition is written as.
pub uninterp spec fn workflow_json(w: WorkflowDefinition) -> Json;

/// The value that the definition decoded from a value is written as, or the message
/// with which the decoder refuses the value.
pub uninterp spec fn model_json(j: Json) -> Result<Json, Seq<char>>;

/// Whether what was decoded is a definition, or the message of the decoder.
pub open spec fn is_workflow(
    r: Result<WorkflowDefinition, String>,
    model: Result<Json, Seq<char>>,
) -> bool {
    match (r, model) {
        (Ok(w), Ok(j)) => workflow_json(w) == j,
        (Err(e), Err(m)) => e@ == m,
        _ => false,
    }
}

/// Whether a value is in normal form, and is what the definition decoded from it is
/// written as.
pub open spec fn is_settled(j: Json) -> bool {
    norm_scope(j) == j && model_json(j) == Ok::<Json, Seq<char>>(j)
}

/// Trusted: `serde_json::from_value` decodes a value as a
/// `serverless_workflow_core::models::workflow::WorkflowDefinition`. Which values
/// are definitions is not stated; the result depends on the value alone. What a
/// decoded definition is written as is decoded to the same: members are written
/// under the names that they are read under, only optional ones are left out, and of
/// the forms that a value can have, the one that was decoded comes first again. It is
/// in normal form: a fork is written with `compete`, and a task with `for` is decoded
/// as its `do`, the form that is tried before it.
#[verifier::external_body]
fn decode_model(n: Node) -> (r: Result<WorkflowDefinition, String>)
    ensures
        is_workflow(r, model_json(node_json(n))),
        r matches Ok(w) ==> is_settled(workflow_json(w)),
{
    serde_json::from_value(n).map_err(|e| e.to_string())
}

/// Trusted: `serde_json::to_value` writes a definition as a value. It does not fail:
/// the definition is made of derived forms over texts, integers, values, and maps
/// with texts or integers as keys. The order in which a hash map is walked does not
/// show, as the members of a value are sorted.
#[verifier::external_body]
fn encode_model(w: &WorkflowDefinition) -> (r: Node)
    ensures
        node_json(r) == workflow_json(*w),
{
    serde_json::to_value(w).unwrap_or_default()
}

/// Decodes a value as a definition.
pub fn decode_workflow(v: &Value) -> (r: Result<WorkflowDefinition, String>)
    ensures
        is_workflow(r, model_json(held(v@))),
        r matches Ok(w) ==> is_settled(workflow_json(w)),
{
    decode_model(to_node(v))
}

/// Writes a definition as a value.
pub fn encode_workflow(w: &WorkflowDefinition) -> (r: Value)
    ensures
        r@ == workflow_json(*w),
        is_canonical(r@),
{
    from_node(&encode_model(w))
}

// ---------------------------------------------------------------------------
// What the rules look at
// ---------------------------------------------------------------------------

/// A part of an object, if there is one.
pub open spec fn part(j: Json, key: Seq<char>) -> Option<Json> {
    match j {
        Json::Object(m) => lookup(m, key),
        _ => None,
    }
}

/// A text in an object, if there is one.
pub open spec fn text_part(j: Json, key: Seq<char>) -> Option<Seq<char>> {
    match part(j, key) {
        Some(Json::String(s)) => Some(s),
        _ => None,
    }
}

/// A text in an object, or the empty text.
pub open spec fn text_or_none(j: Json, key: Seq<char>) -> Seq<char> {
    match text_part(j, key) {
        Some(s) => s,
        None => Seq::empty(),
    }
}

/// The place of a member that is found.
proof fn lemma_part_place(m: Members, key: Seq<char>) -> (i: int)
    requires
        lookup(m, key) is Some,
    ensures
        0 <= i < m.len(),
        m[i] == (key, lookup(m, key).unwrap()),
    decreases m.len(),
{
    if m[0].0 == key {
        0
    } else {
        let i = lemma_part_place(m.skip(1), key);
        assert(m.skip(1)[i] == m[i + 1]);
        i + 1
    }
}

/// A part is smaller than the object that it is found in.
pub proof fn lemma_part_smaller(j: Json, key: Seq<char>)
    ensures
        part(j, key) matches Some(v) ==> decreases_to!(j => v),
{
    match j {
        Json::Object(m) => {
            if lookup(m, key) is Some {
                let i = lemma_part_place(m, key);
                assert(decreases_to!(m => m[i]));
                assert(decreases_to!(m[i] => m[i].1));
                assert(decreases_to!(j => j->Object_0));
            }
        },
        _ => {},
    }
}

/// The list of tasks under a key.
pub open spec fn tasks_under(j: Json, key: Seq<char>) -> Seq<Option<EntryModel>>
    decreases j, 0nat,
{
    match part(j, key) {
        Some(v) => {
            proof {
                lemma_part_smaller(j, key);
            }
            list_of(v)
        },
        None => Seq::empty(),
    }
}

/// The list of tasks that a value holds.
pub open spec fn list_of(v: Json) -> Seq<Option<EntryModel>>
    decreases v, 3nat,
{
    match v {
        Json::Array(items) => Seq::new(
            items.len(),
            |i: int|
                if 0 <= i < items.len() {
                    named_task(items[i])
                } else {
                    None
                },
        ),
        _ => Seq::empty(),
    }
}

/// The task of an entry of a list, by its name. Of several names the first in order
/// counts.
pub open spec fn named_task(j: Json) -> Option<EntryModel>
    decreases j, 2nat,
{
    match j {
        Json::Object(m) => if m.len() == 0 {
            None
        } else {
            Some((EntryModel { name: m[0].0, task: task_of(m[0].1) }))
        },
        _ => None,
    }
}

/// The task that a value holds.
pub open spec fn task_of(j: Json) -> TaskModel
    decreases j, 2nat,
{
    TaskModel { flow: text_part(j, "then"@), body: body_of(j) }
}

/// What a task holds, by the word that tells its kind.
pub open spec fn body_of(j: Json) -> BodyModel
    decreases j, 1nat,
{
    if part(j, "for"@) is Some {
        BodyModel::For {
            collection: text_or_none(part(j, "for"@).unwrap(), "in"@),
            tasks: tasks_under(j, "do"@),
        }
    } else if part(j, "do"@) is Some {
        BodyModel::Do(tasks_under(j, "do"@))
    } else if part(j, "fork"@) is Some {
        proof {
            lemma_part_smaller(j, "fork"@);
        }
        BodyModel::Fork(tasks_under(part(j, "fork"@).unwrap(), "branches"@))
    } else if part(j, "try"@) is Some {
        BodyModel::Try { tasks: tasks_under(j, "try"@), handler: handler_of(j) }
    } else if part(j, "switch"@) is Some {
        BodyModel::Switch(cases_of(part(j, "switch"@).unwrap()))
    } else {
        BodyModel::Simple
    }
}

/// The tasks that handle an error, if there are any.
pub open spec fn handler_of(j: Json) -> Option<Seq<Option<EntryModel>>>
    decreases j, 0nat,
{
    match part(j, "catch"@) {
        Some(c) => if part(c, "do"@) is Some {
            proof {
                lemma_part_smaller(j, "catch"@);
            }
            Some(tasks_under(c, "do"@))
        } else {
            None
        },
        None => None,
    }
}

/// The cases that a value holds.
pub open spec fn cases_of(v: Json) -> Seq<Option<CaseModel>> {
    match v {
        Json::Array(items) => items.map_values(|c: Json| named_case(c)),
        _ => Seq::empty(),
    }
}

/// The case of an entry of a switch, by its name. Of several names the first in
/// order counts.
pub open spec fn named_case(j: Json) -> Option<CaseModel> {
    match j {
        Json::Object(m) => if m.len() == 0 {
            None
        } else {
            Some(
                (CaseModel {
                    name: m[0].0,
                    when: text_part(m[0].1, "when"@),
                    flow: text_part(m[0].1, "then"@),
                }),
            )
        },
        _ => None,
    }
}

/// What the rules look at in a definition that is written as a value.
pub open spec fn definition_of(j: Json) -> DefinitionModel {
    let document = match part(j, "document"@) {
        Some(d) => d,
        None => Json::Null,
    };
    DefinitionModel {
        dsl: text_or_none(document, "dsl"@),
        namespace: text_or_none(document, "namespace"@),
        name: text_or_none(document, "name"@),
        version: text_or_none(document, "version"@),
        tasks: tasks_under(j, "do"@),
    }
}

/// Finds a part of an object.
fn find_part<'a>(v: &'a Value, key: &str) -> (r: Option<&'a Value>)
    ensures
        match r {
            Some(x) => part(v@, key@) == Some(x@),
            None => part(v@, key@) is None,
        },
{
    v.get(key)
}

/// Reads a text in an object, if there is one.
fn read_text(v: &Value, key: &str) -> (r: Option<String>)
    ensures
        opt_view(r) == text_part(v@, key@),
{
    match find_part(v, key) {
        Some(Value::String(s)) => Some(s.clone()),
        _ => None,
    }
}

/// Reads a text in an object, or the empty text.
fn read_text_or_none(v: &Value, key: &str) -> (r: String)
    ensures
        r@ == text_or_none(v@, key@),
{
    match read_text(v, key) {
        Some(s) => s,
        None => String::new(),
    }
}

/// Reads the list of tasks under a key.
fn read_tasks(v: &Value, key: &str) -> (r: TaskList)
    ensures
        r@ == tasks_under(v@, key@),
    decreases v@, 0nat,
{
    match find_part(v, key) {
        Some(x) => {
            proof {
                lemma_part_smaller(v@, key@);
            }
            read_list(x)
        },
        None => {
            let r = TaskList { entries: Vec::new() };
            assert(r@ =~= Seq::empty());
            r
        },
    }
}

/// Reads a list of tasks.
fn read_list(v: &Value) -> (r: TaskList)
    ensures
        r@ == list_of(v@),
    decreases v@, 3nat,
{
    let mut entries: Vec<Option<TaskEntry>> = Vec::new();
    match v {
        Value::Array(items) => {
            let ghost m = jsons(items@);
            let mut i: usize = 0;
            while i < items.len()
                invariant
                    i <= items.len(),
                    m == jsons(items@),
                    v@ == Json::Array(m),
                    entries.len() == i,
                    forall|k: int|
                        0 <= k < i ==> entry_model(#[trigger] entries@[k]) == named_task(m[k]),
                decreases items.len() - i,
            {
                proof {
                    assert(m[i as int] == items@[i as int]@);
                    assert(decreases_to!(m => m[i as int]));
                    assert(decreases_to!(v@ => v@->Array_0));
                }
                entries.push(read_entry(&items[i]));
                i += 1;
            }
            let r = TaskList { entries };
            assert(r@ =~= list_of(v@));
            r
        },
        _ => {
            let r = TaskList { entries };
            assert(r@ =~= Seq::empty());
            r
        },
    }
}

/// Reads the task of an entry of a list.
fn read_entry(v: &Value) -> (r: Option<TaskEntry>)
    ensures
        entry_model(r) == named_task(v@),
    decreases v@, 2nat,
{
    match v {
        Value::Object(o) => {
            if o.entries.len() == 0 {
                return None;
            }
            let ghost m = o@;
            proof {
                assert(m[0] == (o.entries@[0].0@, o.entries@[0].1@));
                assert(decreases_to!(m => m[0]));
                assert(decreases_to!(m[0] => m[0].1));
                assert(decreases_to!(v@ => v@->Object_0));
            }
            let task = read_task(&o.entries[0].1);
            Some(TaskEntry { name: o.entries[0].0.clone(), task })
        },
        _ => None,
    }
}

/// Reads a task.
fn read_task(v: &Value) -> (r: Task)
    ensures
        opt_view(r.flow) == task_of(v@).flow,
        r.body@ == task_of(v@).body,
    decreases v@, 2nat,
{
    let flow = read_text(v, "then");
    let body = read_body(v);
    Task { flow, body }
}

/// Reads what a task holds.
fn read_body(v: &Value) -> (r: TaskBody)
    ensures
        r@ == body_of(v@),
    decreases v@, 1nat,
{
    match find_part(v, "for") {
        Some(f) => {
            let collection = read_text_or_none(f, "in");
            return TaskBody::For { collection, tasks: read_tasks(v, "do") };
        },
        None => {},
    }
    if find_part(v, "do").is_some() {
        return TaskBody::Do(read_tasks(v, "do"));
    }
    match find_part(v, "fork") {
        Some(f) => {
            proof {
                lemma_part_smaller(v@, "fork"@);
            }
            return TaskBody::Fork(read_tasks(f, "branches"));
        },
        None => {},
    }
    if find_part(v, "try").is_some() {
        let tasks = read_tasks(v, "try");
        return TaskBody::Try { tasks, handler: read_handler(v) };
    }
    match find_part(v, "switch") {
        Some(s) => TaskBody::Switch(read_cases(s)),
        None => TaskBody::Simple,
    }
}

/// Reads the tasks that handle an error.
fn read_handler(v: &Value) -> (r: Option<TaskList>)
    ensures
        match r {
            Some(h) => handler_of(v@) == Some(h@),
            None => handler_of(v@) is None,
        },
    decreases v@, 0nat,
{
    match find_part(v, "catch") {
        Some(c) => {
            if find_part(c, "do").is_some() {
                proof {
                    lemma_part_smaller(v@, "catch"@);
                }
                Some(read_tasks(c, "do"))
            } else {
                None
            }
        },
        None => None,
    }
}

/// Reads the cases of a switch.
fn read_cases(v: &Value) -> (r: Vec<Option<SwitchCase>>)
    ensures
        case_models(r@) == cases_of(v@),
{
    let mut out: Vec<Option<SwitchCase>> = Vec::new();
    match v {
        Value::Array(items) => {
            let ghost m = jsons(items@);
            let mut i: usize = 0;
            while i < items.len()
                invariant
                    i <= items.len(),
                    m == jsons(items@),
                    out.len() == i,
                    forall|k: int|
                        0 <= k < i ==> case_model(#[trigger] out@[k]) == named_case(m[k]),
                decreases items.len() - i,
            {
                assert(m[i as int] == items@[i as int]@);
                out.push(read_case(&items[i]));
                i += 1;
            }
            assert(case_models(out@) =~= cases_of(v@));
        },
        _ => {
            assert(case_models(out@) =~= Seq::empty());
        },
    }
    out
}

/// Reads the case of an entry of a switch.
fn read_case(v: &Value) -> (r: Option<SwitchCase>)
    ensures
        case_model(r) == named_case(v@),
{
    match v {
        Value::Object(o) => {
            if o.entries.len() == 0 {
                return None;
            }
            assert(o@[0] == (o.entries@[0].0@, o.entries@[0].1@));
            let when = read_text(&o.entries[0].1, "when");
            let flow = read_text(&o.entries[0].1, "then");
            Some(SwitchCase { name: o.entries[0].0.clone(), when, flow })
        },
        _ => None,
    }
}

/// Reads what the rules look at in a definition that is written as a value.
pub fn read_definition(v: &Value) -> (r: Definition)
    ensures
        r@ == definition_of(v@),
{
    let none = Value::Null;
    let document = match find_part(v, "document") {
        Some(d) => d,
        None => &none,
    };
    Definition {
        dsl: read_text_or_none(document, "dsl"),
        namespace: read_text_or_none(document, "namespace"),
        name: read_text_or_none(document, "name"),
        version: read_text_or_none(document, "version"),
        tasks: read_tasks(v, "do"),
    }
}

/// Reads what the rules look at in a definition.
pub fn model_definition(w: &WorkflowDefinition) -> (r: Definition)
    ensures
        r@ == definition_of(workflow_json(*w)),
{
    read_definition(&encode_workflow(w))
}

// ---------------------------------------------------------------------------
// What is read of a definition
// ---------------------------------------------------------------------------

/// The document part of a definition gives its texts, each under its name.
pub proof fn law_document_part(m: Members, d: Members)
    requires
        lookup(m, "document"@) == Some(Json::Object(d)),
    ensures
        ({
            let def = definition_of(Json::Object(m));
            &&& lookup(d, "dsl"@) matches Some(Json::String(s)) ==> def.dsl == s
            &&& lookup(d, "namespace"@) matches Some(Json::String(s)) ==> def.namespace == s
            &&& lookup(d, "name"@) matches Some(Json::String(s)) ==> def.name == s
            &&& lookup(d, "version"@) matches Some(Json::String(s)) ==> def.version == s
            &&& lookup(d, "name"@) is None ==> def.name.len() == 0
        }),
{
}

/// The tasks of a definition are the entries of its list, in order, each under its name.
pub proof fn law_task_list(m: Members, items: Seq<Json>, i: int)
    requires
        lookup(m, "do"@) == Some(Json::Array(items)),
        0 <= i < items.len(),
    ensures
        ({
            let tasks = definition_of(Json::Object(m)).tasks;
            &&& tasks.len() == items.len()
            &&& items[i] matches Json::Object(e) ==> e.len() > 0 ==> tasks[i] is Some
                && tasks[i].unwrap().name == e[0].0 && tasks[i].unwrap().task == task_of(e[0].1)
            &&& items[i] == Json::Object(Seq::empty()) ==> tasks[i] is None
        }),
{
}

/// A task is what its words say: a loop, a sequence, a fork, a guarded list, a switch, or
/// none of these; and `then` is its directive.
pub proof fn law_task_forms(m: Members)
    ensures
        ({
            let t = task_of(Json::Object(m));
            let list = |key: Seq<char>| tasks_under(Json::Object(m), key);
            &&& lookup(m, "then"@) matches Some(Json::String(s)) ==> t.flow == Some(s)
            &&& lookup(m, "then"@) is None ==> t.flow is None
            &&& lookup(m, "for"@) matches Some(Json::Object(f)) ==> lookup(
                f,
                "in"@,
            ) matches Some(Json::String(c)) ==> t.body == (BodyModel::For {
                collection: c,
                tasks: list("do"@),
            })
            &&& lookup(m, "for"@) is None && lookup(m, "do"@) is Some ==> t.body
                == BodyModel::Do(list("do"@))
            &&& lookup(m, "for"@) is None && lookup(m, "do"@) is None ==> {
                &&& lookup(m, "fork"@) matches Some(f) ==> t.body == BodyModel::Fork(
                    tasks_under(f, "branches"@),
                )
                &&& lookup(m, "fork"@) is None && lookup(m, "try"@) is Some ==> t.body is Try
                    && t.body->Try_tasks == list("try"@)
                &&& lookup(m, "fork"@) is None && lookup(m, "try"@) is None ==> {
                    &&& lookup(m, "switch"@) matches Some(s) ==> t.body == BodyModel::Switch(
                        cases_of(s),
                    )
                    &&& lookup(m, "switch"@) is None ==> t.body == BodyModel::Simple
                }
            }
        }),
{
}

/// A list of tasks under a key has an entry for each item, and there is none where there
/// is no list.
pub proof fn law_listed_tasks(m: Members, key: Seq<char>, items: Seq<Json>)
    ensures
        lookup(m, key) == Some(Json::Array(items)) ==> tasks_under(Json::Object(m), key)
            == items.map_values(|i: Json| named_task(i)),
        lookup(m, key) is None ==> tasks_under(Json::Object(m), key).len() == 0,
{
    if lookup(m, key) == Some(Json::Array(items)) {
        assert(tasks_under(Json::Object(m), key) =~= items.map_values(|i: Json| named_task(i)));
    }
}

/// The cases of a switch are the entries of its list, in order, each with its name, its
/// condition and its directive.
pub proof fn law_switch_cases(items: Seq<Json>, i: int, e: Members, c: Members)
    requires
        0 <= i < items.len(),
        items[i] == Json::Object(e),
        e.len() > 0,
        e[0].1 == Json::Object(c),
    ensures
        ({
            let cases = cases_of(Json::Array(items));
            &&& cases.len() == items.len()
            &&& cases[i] is Some
            &&& cases[i].unwrap().name == e[0].0
            &&& lookup(c, "when"@) matches Some(Json::String(s)) ==> cases[i].unwrap().when
                == Some(s)
            &&& lookup(c, "when"@) is None ==> cases[i].unwrap().when is None
            &&& lookup(c, "then"@) matches Some(Json::String(s)) ==> cases[i].unwrap().flow
                == Some(s)
            &&& lookup(c, "then"@) is None ==> cases[i].unwrap().flow is None
        }),
{
}

} // verus!
