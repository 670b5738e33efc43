//! Workflow definitions: errors, identities and the normal form.
use crate::document::{
    held, is_readable, is_reading, json_value, lemma_held, pretty_text, read_json, read_yaml,
    write_pretty, write_yaml, yaml_text, yaml_value,
};
use crate::expressions::canonical::lemma_insert_canonical;
use crate::json::{Json, Members, Object, Value, entry_members, jsons};
use crate::model::{
    decode_workflow, definition_of, encode_workflow, is_settled, model_definition, model_json,
    workflow_json,
};
use crate::text::{concat2, concat3, concat5, text_eq, text_less};
use crate::validate::Definition;
use crate::value::{
    inserted, is_canonical, is_sorted, json_text, lemma_inserted_lookup, lookup, to_string,
    write_json,
};
use serverless_workflow_core::models::workflow::WorkflowDefinition;
use vstd::prelude::*;
use vstd::utf8::*;

verus! {

broadcast use crate::json::group_json;

/// An error of parsing or validating a definition.
#[derive(Debug)]
pub enum DefinitionError {
    /// The text could not be decoded.
    Parse(String),
    /// The definition does not have the required form.
    Schema(String),
    /// The definition has the required form and cannot be executed.
    Semantic(String),
    /// The text could not be read.
    Io(String),
}

/// The displayed text of a definition error.
pub open spec fn definition_error_text(e: DefinitionError) -> Seq<char> {
    match e {
        DefinitionError::Parse(m) => "parse error: "@ + m@,
        DefinitionError::Schema(m) => "schema error: "@ + m@,
        DefinitionError::Semantic(m) => "semantic error: "@ + m@,
        DefinitionError::Io(m) => "io error: "@ + m@,
    }
}

impl DefinitionError {
    /// Whether this is a parse error.
    pub fn is_parse(&self) -> (r: bool)
        ensures
            r == (self is Parse),
    {
        matches!(self, DefinitionError::Parse(_))
    }

    /// Whether this is a schema error.
    pub fn is_schema(&self) -> (r: bool)
        ensures
            r == (self is Schema),
    {
        matches!(self, DefinitionError::Schema(_))
    }

    /// Whether this is a semantic error.
    pub fn is_semantic(&self) -> (r: bool)
        ensures
            r == (self is Semantic),
    {
        matches!(self, DefinitionError::Semantic(_))
    }

    /// The displayed text.
    pub fn to_string(&self) -> (r: String)
        ensures
            r@ == definition_error_text(*self),
    {
        match self {
            DefinitionError::Parse(m) => concat2("parse error: ", m.as_str()),
            DefinitionError::Schema(m) => concat2("schema error: ", m.as_str()),
            DefinitionError::Semantic(m) => concat2("semantic error: ", m.as_str()),
            DefinitionError::Io(m) => concat2("io error: ", m.as_str()),
        }
    }
}

/// The identity of a definition.
#[derive(Debug)]
pub struct WorkflowId {
    /// The namespace of the workflow.
    pub namespace: String,
    /// The name of the workflow.
    pub name: String,
    /// The version of the workflow.
    pub version: String,
}

/// The key of an identity.
pub open spec fn id_key(namespace: Seq<char>, name: Seq<char>, version: Seq<char>) -> Seq<char> {
    namespace + "/"@ + name + "/"@ + version
}

impl WorkflowId {
    /// The name and the namespace.
    pub fn qualified_name(&self) -> (r: String)
        ensures
            r@ == self.name@ + "."@ + self.namespace@,
    {
        concat3(self.name.as_str(), ".", self.namespace.as_str())
    }

    /// The key for scheduling and invocation.
    pub fn key(&self) -> (r: String)
        ensures
            r@ == id_key(self.namespace@, self.name@, self.version@),
    {
        concat5(
            self.namespace.as_str(),
            "/",
            self.name.as_str(),
            "/",
            self.version.as_str(),
        )
    }
}

/// The identity of a definition.
pub fn workflow_id(def: &Definition) -> (r: WorkflowId)
    ensures
        r.namespace@ == def.namespace@,
        r.name@ == def.name@,
        r.version@ == def.version@,
{
    WorkflowId {
        namespace: def.namespace.clone(),
        name: def.name.clone(),
        version: def.version.clone(),
    }
}

// ---------------------------------------------------------------------------
// The normal form
// ---------------------------------------------------------------------------

/// The normal form of a scope: an inline collection of a loop becomes its JSON
/// text, a fork states whether its branches compete, and the tasks inside are
/// normalized in turn.
pub open spec fn norm_scope(j: Json) -> Json
    decreases j, 1nat,
{
    match j {
        Json::Object(m) => Json::Object(norm_fields(m)),
        _ => j,
    }
}

/// The normal form of each member of a scope.
pub open spec fn norm_fields(m: Members) -> Members
    decreases m, 0nat,
{
    if m.len() == 0 {
        Seq::empty()
    } else {
        norm_fields(m.drop_last()).push((m.last().0, norm_field(m.last().0, m.last().1)))
    }
}

/// The normal form of a member of a scope.
pub open spec fn norm_field(key: Seq<char>, v: Json) -> Json
    decreases v, 2nat,
{
    if key == "for"@ {
        match v {
            Json::Object(m) => Json::Object(norm_loop(m)),
            _ => v,
        }
    } else if key == "do"@ || key == "try"@ {
        norm_list(v)
    } else if key == "catch"@ {
        match v {
            Json::Object(m) => Json::Object(norm_under(m, "do"@)),
            _ => v,
        }
    } else if key == "fork"@ {
        match v {
            Json::Object(m) => Json::Object(with_compete(norm_under(m, "branches"@))),
            _ => v,
        }
    } else {
        v
    }
}

/// A loop whose collection is a text.
pub open spec fn norm_loop(m: Members) -> Members {
    match lookup(m, "in"@) {
        None => m,
        Some(Json::String(_)) => m,
        Some(v) => inserted(m, "in"@, Json::String(json_text(v))),
    }
}

/// A fork that states whether its branches compete; they do not by default.
pub open spec fn with_compete(m: Members) -> Members {
    if lookup(m, "compete"@) is Some {
        m
    } else {
        inserted(m, "compete"@, Json::Bool(false))
    }
}

/// The members with the list of tasks under a key normalized.
pub open spec fn norm_under(m: Members, key: Seq<char>) -> Members
    decreases m, 0nat,
{
    if m.len() == 0 {
        Seq::empty()
    } else {
        norm_under(m.drop_last(), key).push(
            (
                m.last().0,
                if m.last().0 == key {
                    norm_list(m.last().1)
                } else {
                    m.last().1
                },
            ),
        )
    }
}

/// The normal form of a list of tasks.
pub open spec fn norm_list(v: Json) -> Json
    decreases v, 1nat,
{
    match v {
        Json::Array(tasks) => Json::Array(norm_tasks(tasks)),
        _ => v,
    }
}

/// The normal form of each task.
pub open spec fn norm_tasks(tasks: Seq<Json>) -> Seq<Json>
    decreases tasks, 0nat,
{
    if tasks.len() == 0 {
        Seq::empty()
    } else {
        norm_tasks(tasks.drop_last()).push(norm_task(tasks.last()))
    }
}

/// The normal form of an entry of a list of tasks: each task by its name.
pub open spec fn norm_task(j: Json) -> Json
    decreases j, 1nat,
{
    match j {
        Json::Object(m) => Json::Object(norm_named(m)),
        _ => j,
    }
}

/// The normal form of the scope under each name.
pub open spec fn norm_named(m: Members) -> Members
    decreases m, 0nat,
{
    if m.len() == 0 {
        Seq::empty()
    } else {
        norm_named(m.drop_last()).push((m.last().0, norm_scope(m.last().1)))
    }
}

/// Members with the keys of sorted members are sorted.
proof fn lemma_same_order(m: Members, n: Members)
    requires
        is_sorted(m),
        m.len() == n.len(),
        forall|i: int| 0 <= i < m.len() ==> (#[trigger] n[i]).0 == m[i].0,
    ensures
        is_sorted(n),
{
    assert forall|i: int, j: int| 0 <= i < j < n.len() implies text_less(
        #[trigger] n[i].0,
        #[trigger] n[j].0,
    ) by {
        assert(text_less(m[i].0, m[j].0));
    }
}

/// Appends an entry to the members of an object under construction.
fn push_entry(entries: &mut Vec<(String, Value)>, key: &String, v: Value)
    ensures
        entry_members(final(entries)@) == entry_members(old(entries)@).push(
            (key@, v@),
        ),
{
    let ghost before = entry_members(entries@);
    entries.push((key.clone(), v));
    assert(entry_members(entries@) =~= before.push((key@, v@)));
}

/// A loop whose collection is a text.
fn normal_loop(o: &Object) -> (r: Object)
    ensures
        r@ == norm_loop(o@),
{
    let mut out = o.clone();
    match o.get("in") {
        Some(v) => match v {
            Value::String(_) => {},
            other => {
                let text = write_json(other);
                out.insert("in".to_owned(), Value::String(text));
            },
        },
        None => {},
    }
    out
}

/// The normal form of a scope.
fn normal_scope(v: &Value) -> (r: Value)
    ensures
        r@ == norm_scope(v@),
    decreases v, 1nat,
{
    match v {
        Value::Object(o) => {
            let ghost m = o@;
            let mut entries: Vec<(String, Value)> = Vec::new();
            let mut i: usize = 0;
            assert(entry_members(entries@) =~= norm_fields(m.take(0)));
            while i < o.entries.len()
                invariant
                    i <= o.entries.len(),
                    decreases_to!(v => o),
                    m == o@,
                    entry_members(entries@) == norm_fields(m.take(i as int)),
                decreases o.entries.len() - i,
            {
                let field = normal_field(&o.entries[i].0, &o.entries[i].1);
                proof {
                    let next = m.take(i + 1);
                    assert(next.drop_last() =~= m.take(i as int));
                    assert(next.last() == (o.entries@[i as int].0@, o.entries@[i as int].1@));
                }
                push_entry(&mut entries, &o.entries[i].0, field);
                i += 1;
            }
            proof {
                assert(m.take(o.entries.len() as int) =~= m);
                use_type_invariant(o);
                lemma_norm_fields(m);
                lemma_same_order(m, norm_fields(m));
            }
            Value::Object(Object { entries })
        },
        other => other.clone(),
    }
}

/// The normal form of a member of a scope.
fn normal_field(key: &String, v: &Value) -> (r: Value)
    ensures
        r@ == norm_field(key@, v@),
    decreases v, 2nat,
{
    if text_eq(key.as_str(), "for") {
        match v {
            Value::Object(o) => Value::Object(normal_loop(o)),
            other => other.clone(),
        }
    } else if text_eq(key.as_str(), "do") || text_eq(key.as_str(), "try") {
        normal_list(v)
    } else if text_eq(key.as_str(), "catch") {
        match v {
            Value::Object(o) => Value::Object(normal_under(o, "do")),
            other => other.clone(),
        }
    } else if text_eq(key.as_str(), "fork") {
        match v {
            Value::Object(o) => {
                let mut out = normal_under(o, "branches");
                if !out.contains_key("compete") {
                    out.insert("compete".to_owned(), Value::Bool(false));
                }
                Value::Object(out)
            },
            other => other.clone(),
        }
    } else {
        v.clone()
    }
}

/// The members with the list of tasks under a key normalized.
fn normal_under(o: &Object, key: &str) -> (r: Object)
    ensures
        r@ == norm_under(o@, key@),
    decreases o, 0nat,
{
    let ghost m = o@;
    let mut entries: Vec<(String, Value)> = Vec::new();
    let mut i: usize = 0;
    assert(entry_members(entries@) =~= norm_under(m.take(0), key@));
    while i < o.entries.len()
        invariant
            i <= o.entries.len(),
            m == o@,
            entry_members(entries@) == norm_under(m.take(i as int), key@),
        decreases o.entries.len() - i,
    {
        let field = if text_eq(o.entries[i].0.as_str(), key) {
            normal_list(&o.entries[i].1)
        } else {
            o.entries[i].1.clone()
        };
        proof {
            let next = m.take(i + 1);
            assert(next.drop_last() =~= m.take(i as int));
            assert(next.last() == (o.entries@[i as int].0@, o.entries@[i as int].1@));
        }
        push_entry(&mut entries, &o.entries[i].0, field);
        i += 1;
    }
    proof {
        assert(m.take(o.entries.len() as int) =~= m);
        use_type_invariant(o);
        lemma_norm_under(m, key@);
        lemma_same_order(m, norm_under(m, key@));
    }
    Object { entries }
}

/// The normal form of a list of tasks.
fn normal_list(v: &Value) -> (r: Value)
    ensures
        r@ == norm_list(v@),
    decreases v, 1nat,
{
    match v {
        Value::Array(items) => {
            let ghost m = jsons(items@);
            let mut out: Vec<Value> = Vec::new();
            let mut i: usize = 0;
            while i < items.len()
                invariant
                    i <= items.len(),
                    decreases_to!(v => items),
                    m == jsons(items@),
                    jsons(out@) == norm_tasks(m.take(i as int)),
                decreases items.len() - i,
            {
                let task = normal_task(&items[i]);
                proof {
                    let next = m.take(i + 1);
                    assert(next.drop_last() =~= m.take(i as int));
                    assert(next.last() == items@[i as int]@);
                }
                out.push(task);
                i += 1;
            }
            assert(m.take(items.len() as int) =~= m);
            Value::Array(out)
        },
        other => other.clone(),
    }
}

/// The normal form of an entry of a list of tasks.
fn normal_task(v: &Value) -> (r: Value)
    ensures
        r@ == norm_task(v@),
    decreases v, 1nat,
{
    match v {
        Value::Object(o) => {
            let ghost m = o@;
            let mut entries: Vec<(String, Value)> = Vec::new();
            let mut i: usize = 0;
            assert(entry_members(entries@) =~= norm_named(m.take(0)));
            while i < o.entries.len()
                invariant
                    i <= o.entries.len(),
                    decreases_to!(v => o),
                    m == o@,
                    entry_members(entries@) == norm_named(m.take(i as int)),
                decreases o.entries.len() - i,
            {
                let scope = normal_scope(&o.entries[i].1);
                proof {
                    let next = m.take(i + 1);
                    assert(next.drop_last() =~= m.take(i as int));
                    assert(next.last() == (o.entries@[i as int].0@, o.entries@[i as int].1@));
                }
                push_entry(&mut entries, &o.entries[i].0, scope);
                i += 1;
            }
            proof {
                assert(m.take(o.entries.len() as int) =~= m);
                use_type_invariant(o);
                lemma_norm_named(m);
                lemma_same_order(m, norm_named(m));
            }
            Value::Object(Object { entries })
        },
        other => other.clone(),
    }
}

/// Brings a definition into its normal form.
pub fn normalize_definition(value: &mut Value)
    ensures
        final(value)@ == norm_scope(old(value)@),
{
    let out = normal_scope(value);
    *value = out;
}

// ---------------------------------------------------------------------------
// Reading
// ---------------------------------------------------------------------------

/// The model of a definition that was read: that of its normal form, or the refusal.
pub open spec fn loaded(reading: Result<Json, Seq<char>>) -> Result<Json, Seq<char>> {
    match reading {
        Ok(j) => model_json(norm_scope(j)),
        Err(m) => Err(m),
    }
}

/// Whether a definition, or the parse error, is what a model says.
pub open spec fn is_definition_of(
    r: Result<Definition, DefinitionError>,
    model: Result<Json, Seq<char>>,
) -> bool {
    match model {
        Ok(j) => r is Ok && r->Ok_0@ == definition_of(j),
        Err(m) => r is Err && r->Err_0 is Parse && r->Err_0->Parse_0@ == m,
    }
}

/// Whether an outside definition, or the parse error, is what a model says.
pub open spec fn is_workflow_of(
    r: Result<WorkflowDefinition, DefinitionError>,
    model: Result<Json, Seq<char>>,
) -> bool {
    match model {
        Ok(j) => r is Ok && workflow_json(r->Ok_0) == j,
        Err(m) => r is Err && r->Err_0 is Parse && r->Err_0->Parse_0@ == m,
    }
}

/// Turns what was read into an outside definition, through its normal form.
pub fn load(reading: Result<Value, String>) -> (r: Result<WorkflowDefinition, DefinitionError>)
    ensures
        is_workflow_of(
            r,
            match reading {
                Ok(v) => model_json(held(norm_scope(v@))),
                Err(e) => Err(e@),
            },
        ),
        reading matches Ok(v) ==> (is_canonical(v@) ==> is_workflow_of(r, loaded(Ok(v@)))),
        r matches Ok(w) ==> is_settled(workflow_json(w)),
{
    match reading {
        Ok(v) => {
            let mut value = v;
            normalize_definition(&mut value);
            proof {
                if is_canonical(v@) {
                    law_normal_form_is_canonical(v@);
                    lemma_held(norm_scope(v@));
                }
            }
            match decode_workflow(&value) {
                Ok(w) => Ok(w),
                Err(e) => Err(DefinitionError::Parse(e)),
            }
        },
        Err(e) => Err(DefinitionError::Parse(e)),
    }
}

/// Turns what was read into a definition, through its normal form.
fn define(reading: Result<Value, String>) -> (r: Result<Definition, DefinitionError>)
    requires
        reading matches Ok(v) ==> is_canonical(v@),
    ensures
        is_definition_of(
            r,
            loaded(
                match reading {
                    Ok(v) => Ok(v@),
                    Err(e) => Err(e@),
                },
            ),
        ),
{
    match load(reading) {
        Ok(w) => Ok(model_definition(&w)),
        Err(e) => Err(e),
    }
}

/// Reads a definition from YAML.
pub fn from_yaml(yaml: &str) -> (r: Result<Definition, DefinitionError>)
    ensures
        is_definition_of(r, loaded(yaml_value(yaml@))),
{
    define(read_yaml(yaml))
}

/// Reads a definition from JSON.
pub fn from_json(json: &str) -> (r: Result<Definition, DefinitionError>)
    ensures
        is_definition_of(r, loaded(json_value(json@))),
{
    define(read_json(json))
}

/// What a text gives that is tried as YAML and then as JSON. Where both are refused,
/// the refusal is that of YAML.
pub open spec fn first_success(
    yaml: Result<Json, Seq<char>>,
    json: Result<Json, Seq<char>>,
) -> Result<Json, Seq<char>> {
    match (yaml, json) {
        (Ok(j), _) => Ok(j),
        (Err(_), Ok(j)) => Ok(j),
        (Err(m), Err(_)) => Err(m),
    }
}

/// The message with which `std` refuses bytes that are not UTF-8.
pub uninterp spec fn utf8_refusal(bytes: Seq<u8>) -> Seq<char>;

/// Trusted: `std::str::from_utf8` decodes bytes that are UTF-8, and refuses others.
/// The message of the refusal depends on the bytes alone and is not stated.
#[verifier::external_body]
fn decode_bytes(bytes: &[u8]) -> (r: Result<String, String>)
    ensures
        match r {
            Ok(s) => valid_utf8(bytes@) && s@ == decode_utf8(bytes@),
            Err(m) => !valid_utf8(bytes@) && m@ == utf8_refusal(bytes@),
        },
{
    std::str::from_utf8(bytes).map(|s| s.to_owned()).map_err(|e| e.to_string())
}

/// The refusal of bytes that are not UTF-8, or what their text gives.
pub open spec fn of_bytes(
    bytes: Seq<u8>,
    value: Result<Json, Seq<char>>,
) -> Result<Json, Seq<char>> {
    if valid_utf8(bytes) {
        value
    } else {
        Err("invalid UTF-8: "@ + utf8_refusal(bytes))
    }
}

/// Decodes the bytes of a definition.
fn text_of(bytes: &[u8]) -> (r: Result<String, String>)
    ensures
        match r {
            Ok(s) => valid_utf8(bytes@) && s@ == decode_utf8(bytes@),
            Err(e) => !valid_utf8(bytes@) && e@ == "invalid UTF-8: "@ + utf8_refusal(bytes@),
        },
{
    match decode_bytes(bytes) {
        Ok(s) => Ok(s),
        Err(m) => Err(concat2("invalid UTF-8: ", m.as_str())),
    }
}

/// Reads a definition from bytes, tried as YAML and then as JSON.
pub fn from_bytes(bytes: &[u8]) -> (r: Result<Definition, DefinitionError>)
    ensures
        is_definition_of(
            r,
            of_bytes(
                bytes@,
                first_success(
                    loaded(yaml_value(decode_utf8(bytes@))),
                    loaded(json_value(decode_utf8(bytes@))),
                ),
            ),
        ),
{
    let text = match text_of(bytes) {
        Ok(s) => s,
        Err(e) => {
            return Err(DefinitionError::Parse(e));
        },
    };
    match from_yaml(text.as_str()) {
        Ok(d) => Ok(d),
        Err(e) => match from_json(text.as_str()) {
            Ok(d) => Ok(d),
            Err(_) => Err(e),
        },
    }
}

/// What the bytes of a file give: its text is JSON where the extension of the file
/// says so, otherwise YAML.
pub open spec fn file_value(bytes: Seq<u8>, extension: Option<Seq<char>>) -> Result<
    Json,
    Seq<char>,
> {
    of_bytes(
        bytes,
        if extension == Some("json"@) {
            json_value(decode_utf8(bytes))
        } else {
            yaml_value(decode_utf8(bytes))
        },
    )
}

/// Reads the value in a file from its bytes.
pub fn read_file_bytes(bytes: &[u8], extension: Option<&str>) -> (r: Result<Value, String>)
    ensures
        is_reading(
            r,
            file_value(
                bytes@,
                match extension {
                    Some(x) => Some(x@),
                    None => None,
                },
            ),
        ),
{
    let text = match text_of(bytes) {
        Ok(s) => s,
        Err(e) => {
            return Err(e);
        },
    };
    match extension {
        Some(x) => if text_eq(x, "json") {
            read_json(text.as_str())
        } else {
            read_yaml(text.as_str())
        },
        None => read_yaml(text.as_str()),
    }
}

/// Reads the definition in a file from its bytes.
pub fn from_file_bytes(bytes: &[u8], extension: Option<&str>) -> (r: Result<
    Definition,
    DefinitionError,
>)
    ensures
        is_definition_of(
            r,
            loaded(
                file_value(
                    bytes@,
                    match extension {
                        Some(x) => Some(x@),
                        None => None,
                    },
                ),
            ),
        ),
{
    define(read_file_bytes(bytes, extension))
}

// ---------------------------------------------------------------------------
// Writing
// ---------------------------------------------------------------------------

/// Whether a text, or the parse error, is what a writer gives.
pub open spec fn is_text_of(
    r: Result<String, DefinitionError>,
    text: Result<Seq<char>, Seq<char>>,
) -> bool {
    match text {
        Ok(t) => r is Ok && r->Ok_0@ == t,
        Err(m) => r is Err && r->Err_0 is Parse && r->Err_0->Parse_0@ == m,
    }
}

/// Turns what a writer gave into a text or the parse error.
fn text_from(written: Result<String, String>) -> (r: Result<String, DefinitionError>)
    ensures
        match written {
            Ok(t) => is_text_of(r, Ok(t@)),
            Err(e) => is_text_of(r, Err(e@)),
        },
{
    match written {
        Ok(t) => Ok(t),
        Err(e) => Err(DefinitionError::Parse(e)),
    }
}

/// Writes a definition as YAML, with the members of objects sorted.
pub fn to_yaml(def: &WorkflowDefinition) -> (r: Result<String, DefinitionError>)
    ensures
        is_text_of(r, yaml_text(workflow_json(*def))),
{
    let v = encode_workflow(def);
    proof {
        lemma_held(v@);
    }
    text_from(write_yaml(&v))
}

/// Writes a definition as indented JSON, with the members of objects sorted. What is
/// written is read back, where it holds no doubles and is not nested too deep, and a
/// definition that was loaded is then loaded from it as the same.
pub fn to_json(def: &WorkflowDefinition) -> (r: Result<String, DefinitionError>)
    ensures
        is_text_of(r, pretty_text(workflow_json(*def))),
        is_readable(workflow_json(*def)) ==> r is Ok && json_value(r->Ok_0@) == Ok::<
            Json,
            Seq<char>,
        >(workflow_json(*def)),
        is_readable(workflow_json(*def)) && is_settled(workflow_json(*def)) ==> r is Ok && loaded(
            json_value(r->Ok_0@),
        ) == Ok::<Json, Seq<char>>(workflow_json(*def)),
{
    let v = encode_workflow(def);
    proof {
        lemma_held(v@);
    }
    text_from(write_pretty(&v))
}

// ---------------------------------------------------------------------------
// Laws
// ---------------------------------------------------------------------------

/// A definition that was loaded, and that holds no doubles and is not nested too deep,
/// is read back from the JSON text that it is written as: reading gives the same names,
/// version and tasks.
pub proof fn law_written_definition_is_read(
    def: WorkflowDefinition,
    written: Result<String, DefinitionError>,
    read: Result<Definition, DefinitionError>,
)
    requires
        is_settled(workflow_json(def)),
        is_readable(workflow_json(def)),
        written is Ok,
        json_value(written->Ok_0@) == Ok::<Json, Seq<char>>(workflow_json(def)),
        is_definition_of(read, loaded(json_value(written->Ok_0@))),
    ensures
        read is Ok,
        read->Ok_0@ == definition_of(workflow_json(def)),
{
}

/// Normalizing the lists under a key changes no key, and no value under another.
proof fn lemma_norm_under(m: Members, key: Seq<char>)
    ensures
        norm_under(m, key).len() == m.len(),
        forall|i: int|
            0 <= i < m.len() ==> #[trigger] norm_under(m, key)[i] == (
                m[i].0,
                if m[i].0 == key {
                    norm_list(m[i].1)
                } else {
                    m[i].1
                },
            ),
    decreases m.len(),
{
    if m.len() > 0 {
        lemma_norm_under(m.drop_last(), key);
        let head = norm_under(m.drop_last(), key);
        assert forall|i: int| 0 <= i < m.len() implies #[trigger] norm_under(m, key)[i] == (
            m[i].0,
            if m[i].0 == key {
                norm_list(m[i].1)
            } else {
                m[i].1
            },
        ) by {
            if i < m.len() - 1 {
                assert(norm_under(m, key)[i] == head[i]);
                assert(m.drop_last()[i] == m[i]);
            }
        }
    }
}

/// A key is found after normalizing the lists under another key as it was before.
proof fn lemma_norm_under_lookup(m: Members, key: Seq<char>, other: Seq<char>)
    requires
        other != key,
    ensures
        lookup(norm_under(m, key), other) == lookup(m, other),
    decreases m.len(),
{
    lemma_norm_under(m, key);
    let out = norm_under(m, key);
    if m.len() > 0 && m[0].0 != other {
        assert(out[0].0 == m[0].0);
        lemma_norm_under(m.skip(1), key);
        assert forall|i: int| 0 <= i < m.len() - 1 implies out.skip(1)[i] == norm_under(
            m.skip(1),
            key,
        )[i] by {
            assert(out.skip(1)[i] == out[i + 1]);
            assert(m.skip(1)[i] == m[i + 1]);
        }
        assert(out.skip(1) =~= norm_under(m.skip(1), key));
        lemma_norm_under_lookup(m.skip(1), key, other);
    } else if m.len() > 0 {
        assert(out[0] == m[0]);
    }
}

/// Setting a member under another key and normalizing commute.
proof fn lemma_norm_under_inserted(m: Members, key: Seq<char>, other: Seq<char>, v: Json)
    requires
        other != key,
    ensures
        norm_under(inserted(m, other, v), key) == inserted(norm_under(m, key), other, v),
    decreases m.len(),
{
    let out = inserted(m, other, v);
    let n = norm_under(m, key);
    lemma_norm_under(m, key);
    lemma_norm_under(out, key);
    if m.len() == 0 {
        assert(norm_under(out, key) =~= inserted(n, other, v));
    } else if m[0].0 == other {
        assert(n[0].0 == other);
        assert(norm_under(out, key) =~= inserted(n, other, v));
    } else if text_less(other, m[0].0) {
        assert(n[0].0 == m[0].0);
        assert(norm_under(out, key) =~= seq![(other, v)] + n) by {
            assert forall|i: int| 0 <= i < out.len() implies norm_under(out, key)[i] == (seq![
                (other, v),
            ] + n)[i] by {
                if i > 0 {
                    assert(out[i] == m[i - 1]);
                }
            }
        }
    } else {
        let rest = m.skip(1);
        let tail = inserted(rest, other, v);
        assert(n[0].0 == m[0].0);
        lemma_norm_under_inserted(rest, key, other, v);
        lemma_norm_under(rest, key);
        lemma_norm_under(tail, key);
        assert(n.skip(1) =~= norm_under(rest, key)) by {
            assert forall|i: int| 0 <= i < rest.len() implies n.skip(1)[i] == norm_under(
                rest,
                key,
            )[i] by {
                assert(n.skip(1)[i] == n[i + 1]);
                assert(rest[i] == m[i + 1]);
            }
        }
        assert(norm_under(out, key) =~= seq![n[0]] + norm_under(tail, key)) by {
            assert forall|i: int| 0 <= i < out.len() implies norm_under(out, key)[i] == (seq![
                n[0],
            ] + norm_under(tail, key))[i] by {
                if i > 0 {
                    assert(out[i] == tail[i - 1]);
                } else {
                    assert(out[0] == m[0]);
                }
            }
        }
    }
}

proof fn lemma_idempotent_under(m: Members, key: Seq<char>)
    ensures
        norm_under(norm_under(m, key), key) == norm_under(m, key),
    decreases m, 0nat,
{
    if m.len() > 0 {
        lemma_idempotent_under(m.drop_last(), key);
        lemma_idempotent_list(m.last().1);
        let out = norm_under(m, key);
        assert(out.drop_last() =~= norm_under(m.drop_last(), key));
    }
}

proof fn lemma_idempotent_list(v: Json)
    ensures
        norm_list(norm_list(v)) == norm_list(v),
    decreases v, 1nat,
{
    match v {
        Json::Array(tasks) => lemma_idempotent_tasks(tasks),
        _ => {},
    }
}

proof fn lemma_idempotent_tasks(tasks: Seq<Json>)
    ensures
        norm_tasks(norm_tasks(tasks)) == norm_tasks(tasks),
    decreases tasks, 0nat,
{
    if tasks.len() > 0 {
        lemma_idempotent_tasks(tasks.drop_last());
        lemma_idempotent_task(tasks.last());
        let out = norm_tasks(tasks);
        assert(out.drop_last() =~= norm_tasks(tasks.drop_last()));
    }
}

proof fn lemma_idempotent_task(j: Json)
    ensures
        norm_task(norm_task(j)) == norm_task(j),
    decreases j, 1nat,
{
    match j {
        Json::Object(m) => lemma_idempotent_named(m),
        _ => {},
    }
}

proof fn lemma_idempotent_named(m: Members)
    ensures
        norm_named(norm_named(m)) == norm_named(m),
    decreases m, 0nat,
{
    if m.len() > 0 {
        lemma_idempotent_named(m.drop_last());
        law_normal_form_is_stable(m.last().1);
        let out = norm_named(m);
        assert(out.drop_last() =~= norm_named(m.drop_last()));
    }
}

proof fn lemma_idempotent_fields(m: Members)
    ensures
        norm_fields(norm_fields(m)) == norm_fields(m),
    decreases m, 0nat,
{
    if m.len() > 0 {
        lemma_idempotent_fields(m.drop_last());
        lemma_idempotent_field(m.last().0, m.last().1);
        let out = norm_fields(m);
        assert(out.drop_last() =~= norm_fields(m.drop_last()));
    }
}

proof fn lemma_idempotent_field(key: Seq<char>, v: Json)
    ensures
        norm_field(key, norm_field(key, v)) == norm_field(key, v),
    decreases v, 2nat,
{
    if key == "for"@ {
        match v {
            Json::Object(m) => match lookup(m, "in"@) {
                Some(x) => lemma_inserted_lookup(m, "in"@, Json::String(json_text(x)), "in"@),
                None => {},
            },
            _ => {},
        }
    } else if key == "do"@ || key == "try"@ {
        lemma_idempotent_list(v);
    } else if key == "catch"@ {
        match v {
            Json::Object(m) => lemma_idempotent_under(m, "do"@),
            _ => {},
        }
    } else if key == "fork"@ {
        match v {
            Json::Object(m) => {
                reveal_strlit("branches");
                reveal_strlit("compete");
                assert("branches"@[0] != "compete"@[0]);
                let n = norm_under(m, "branches"@);
                lemma_idempotent_under(m, "branches"@);
                lemma_norm_under_lookup(n, "branches"@, "compete"@);
                lemma_norm_under_inserted(n, "branches"@, "compete"@, Json::Bool(false));
                lemma_inserted_lookup(n, "compete"@, Json::Bool(false), "compete"@);
            },
            _ => {},
        }
    }
}

/// A definition in normal form stays as it is when it is normalized again.
pub proof fn law_normal_form_is_stable(j: Json)
    ensures
        norm_scope(norm_scope(j)) == norm_scope(j),
    decreases j, 1nat,
{
    match j {
        Json::Object(m) => lemma_idempotent_fields(m),
        _ => {},
    }
}

/// Every fork in normal form states whether its branches compete, and a fork that
/// stated it keeps what it stated.
pub proof fn law_fork_states_compete(m: Members)
    ensures
        ({
            let out = with_compete(norm_under(m, "branches"@));
            lookup(out, "compete"@) == Some(
                match lookup(m, "compete"@) {
                    Some(v) => v,
                    None => Json::Bool(false),
                },
            )
        }),
{
    reveal_strlit("branches");
    reveal_strlit("compete");
    assert("branches"@[0] != "compete"@[0]);
    lemma_norm_under_lookup(m, "branches"@, "compete"@);
    lemma_inserted_lookup(
        norm_under(m, "branches"@),
        "compete"@,
        Json::Bool(false),
        "compete"@,
    );
}

/// Two lists of members with the same keys find a key in the same place.
proof fn lemma_lookup_alike(m: Members, n: Members, key: Seq<char>) -> (i: int)
    requires
        m.len() == n.len(),
        forall|i: int| 0 <= i < m.len() ==> (#[trigger] m[i]).0 == n[i].0,
    ensures
        lookup(m, key) is Some <==> lookup(n, key) is Some,
        lookup(m, key) is Some ==> 0 <= i < m.len() && m[i] == (key, lookup(m, key).unwrap())
            && n[i] == (key, lookup(n, key).unwrap()),
    decreases m.len(),
{
    if m.len() == 0 {
        0
    } else {
        assert(m[0].0 == n[0].0);
        if m[0].0 == key {
            0
        } else {
            let (a, b) = (m.skip(1), n.skip(1));
            assert forall|i: int| 0 <= i < a.len() implies (#[trigger] a[i]).0 == b[i].0 by {
                assert(a[i] == m[i + 1] && b[i] == n[i + 1]);
            }
            let i = lemma_lookup_alike(a, b, key);
            if lookup(m, key) is Some {
                assert(a[i] == m[i + 1] && b[i] == n[i + 1]);
            }
            i + 1
        }
    }
}

/// The members of a scope keep their keys and their places.
proof fn lemma_norm_fields(m: Members)
    ensures
        norm_fields(m).len() == m.len(),
        forall|i: int|
            0 <= i < m.len() ==> #[trigger] norm_fields(m)[i] == (
                m[i].0,
                norm_field(m[i].0, m[i].1),
            ),
    decreases m.len(),
{
    if m.len() > 0 {
        let head = m.drop_last();
        lemma_norm_fields(head);
        assert forall|i: int| 0 <= i < m.len() implies #[trigger] norm_fields(m)[i] == (
            m[i].0,
            norm_field(m[i].0, m[i].1),
        ) by {
            if i < head.len() {
                assert(norm_fields(m)[i] == norm_fields(head)[i]);
                assert(head[i] == m[i]);
            }
        }
    }
}

/// Tasks keep their names and their places.
proof fn lemma_norm_named(m: Members)
    ensures
        norm_named(m).len() == m.len(),
        forall|i: int|
            0 <= i < m.len() ==> #[trigger] norm_named(m)[i] == (m[i].0, norm_scope(m[i].1)),
    decreases m.len(),
{
    if m.len() > 0 {
        let head = m.drop_last();
        lemma_norm_named(head);
        assert forall|i: int| 0 <= i < m.len() implies #[trigger] norm_named(m)[i] == (
            m[i].0,
            norm_scope(m[i].1),
        ) by {
            if i < head.len() {
                assert(norm_named(m)[i] == norm_named(head)[i]);
                assert(head[i] == m[i]);
            }
        }
    }
}

/// A member of a scope is found in its normal form, and a member that normalizing
/// does not look into is found as it was.
pub proof fn law_scope_keeps_members(m: Members, key: Seq<char>)
    ensures
        lookup(norm_fields(m), key) == (match lookup(m, key) {
            Some(v) => Some(norm_field(key, v)),
            None => None,
        }),
        key != "for"@ && key != "do"@ && key != "try"@ && key != "catch"@ && key != "fork"@
            ==> lookup(norm_fields(m), key) == lookup(m, key),
{
    lemma_norm_fields(m);
    let i = lemma_lookup_alike(m, norm_fields(m), key);
    if lookup(m, key) is Some {
        assert(norm_fields(m)[i] == (m[i].0, norm_field(m[i].0, m[i].1)));
    }
}

/// A task is found under its name, in its normal form.
pub proof fn law_list_keeps_tasks(m: Members, name: Seq<char>)
    ensures
        lookup(norm_named(m), name) == (match lookup(m, name) {
            Some(v) => Some(norm_scope(v)),
            None => None,
        }),
{
    lemma_norm_named(m);
    let i = lemma_lookup_alike(m, norm_named(m), name);
    if lookup(m, name) is Some {
        assert(norm_named(m)[i] == (m[i].0, norm_scope(m[i].1)));
    }
}

/// A loop keeps every member but its collection. A collection that is a text is
/// kept, any other becomes its JSON text, and none is added.
pub proof fn law_loop_keeps_members(m: Members, key: Seq<char>)
    ensures
        key != "in"@ ==> lookup(norm_loop(m), key) == lookup(m, key),
        lookup(norm_loop(m), "in"@) == (match lookup(m, "in"@) {
            None => None,
            Some(Json::String(s)) => Some(Json::String(s)),
            Some(v) => Some(Json::String(json_text(v))),
        }),
{
    match lookup(m, "in"@) {
        Some(v) => {
            lemma_inserted_lookup(m, "in"@, Json::String(json_text(v)), key);
            lemma_inserted_lookup(m, "in"@, Json::String(json_text(v)), "in"@);
        },
        None => {},
    }
}

/// A fork keeps every member but its branches and whether they compete.
pub proof fn law_fork_keeps_members(m: Members, key: Seq<char>)
    requires
        key != "branches"@,
        key != "compete"@,
    ensures
        lookup(with_compete(norm_under(m, "branches"@)), key) == lookup(m, key),
{
    lemma_norm_under_lookup(m, "branches"@, key);
    lemma_inserted_lookup(norm_under(m, "branches"@), "compete"@, Json::Bool(false), key);
}

// ---------------------------------------------------------------------------
// What the normal form leaves as it was
// ---------------------------------------------------------------------------

/// The members without those under a key.
pub open spec fn removed(m: Members, key: Seq<char>) -> Members
    decreases m.len(),
{
    if m.len() == 0 {
        Seq::empty()
    } else if m.last().0 == key {
        removed(m.drop_last(), key)
    } else {
        removed(m.drop_last(), key).push(m.last())
    }
}

/// A scope without the collections of its loops and without what its forks say
/// about competing, at every depth.
pub open spec fn bare_scope(j: Json) -> Json
    decreases j, 1nat,
{
    match j {
        Json::Object(m) => Json::Object(bare_fields(m)),
        _ => j,
    }
}

/// The members of a bare scope.
pub open spec fn bare_fields(m: Members) -> Members
    decreases m, 0nat,
{
    if m.len() == 0 {
        Seq::empty()
    } else {
        bare_fields(m.drop_last()).push((m.last().0, bare_field(m.last().0, m.last().1)))
    }
}

/// A member of a bare scope.
pub open spec fn bare_field(key: Seq<char>, v: Json) -> Json
    decreases v, 2nat,
{
    if key == "for"@ {
        match v {
            Json::Object(m) => Json::Object(removed(m, "in"@)),
            _ => v,
        }
    } else if key == "do"@ || key == "try"@ {
        bare_list(v)
    } else if key == "catch"@ {
        match v {
            Json::Object(m) => Json::Object(bare_under(m, "do"@)),
            _ => v,
        }
    } else if key == "fork"@ {
        match v {
            Json::Object(m) => Json::Object(removed(bare_under(m, "branches"@), "compete"@)),
            _ => v,
        }
    } else {
        v
    }
}

/// The members with the list of tasks under a key bare.
pub open spec fn bare_under(m: Members, key: Seq<char>) -> Members
    decreases m, 0nat,
{
    if m.len() == 0 {
        Seq::empty()
    } else {
        bare_under(m.drop_last(), key).push(
            (
                m.last().0,
                if m.last().0 == key {
                    bare_list(m.last().1)
                } else {
                    m.last().1
                },
            ),
        )
    }
}

/// A list of bare tasks.
pub open spec fn bare_list(v: Json) -> Json
    decreases v, 1nat,
{
    match v {
        Json::Array(tasks) => Json::Array(bare_tasks(tasks)),
        _ => v,
    }
}

/// The bare tasks of a list.
pub open spec fn bare_tasks(tasks: Seq<Json>) -> Seq<Json>
    decreases tasks, 0nat,
{
    if tasks.len() == 0 {
        Seq::empty()
    } else {
        bare_tasks(tasks.drop_last()).push(bare_task(tasks.last()))
    }
}

/// An entry of a list of bare tasks.
pub open spec fn bare_task(j: Json) -> Json
    decreases j, 1nat,
{
    match j {
        Json::Object(m) => Json::Object(bare_named(m)),
        _ => j,
    }
}

/// The bare scope under each name.
pub open spec fn bare_named(m: Members) -> Members
    decreases m, 0nat,
{
    if m.len() == 0 {
        Seq::empty()
    } else {
        bare_named(m.drop_last()).push((m.last().0, bare_scope(m.last().1)))
    }
}

/// Removing from a list that is put together from two.
proof fn lemma_removed_concat(a: Members, b: Members, key: Seq<char>)
    ensures
        removed(a + b, key) == removed(a, key) + removed(b, key),
    decreases b.len(),
{
    if b.len() == 0 {
        assert(a + b =~= a);
        assert(removed(a, key) + removed(b, key) =~= removed(a, key));
    } else {
        lemma_removed_concat(a, b.drop_last(), key);
        assert((a + b).drop_last() =~= a + b.drop_last());
        assert((a + b).last() == b.last());
        assert(removed(a + b, key) =~= removed(a, key) + removed(b, key));
    }
}

/// Removing from a list of one member.
proof fn lemma_removed_one(e: (Seq<char>, Json), key: Seq<char>)
    ensures
        removed(seq![e], key) == if e.0 == key {
            Seq::empty()
        } else {
            seq![e]
        },
{
    assert(seq![e].drop_last() =~= Seq::empty());
    assert(removed(Seq::empty(), key) =~= Seq::empty());
    assert(removed(seq![e], key) =~= if e.0 == key {
        Seq::empty()
    } else {
        seq![e]
    });
}

/// A member that was set is removed again.
proof fn lemma_removed_inserted(m: Members, key: Seq<char>, v: Json)
    ensures
        removed(inserted(m, key, v), key) == removed(m, key),
    decreases m.len(),
{
    let one = seq![(key, v)];
    lemma_removed_one((key, v), key);
    if m.len() == 0 {
        assert(removed(m, key) =~= Seq::empty());
    } else {
        let rest = m.skip(1);
        let first = seq![m[0]];
        lemma_removed_one(m[0], key);
        assert(m =~= first + rest);
        lemma_removed_concat(first, rest, key);
        if m[0].0 == key {
            assert(inserted(m, key, v) =~= one + rest);
            lemma_removed_concat(one, rest, key);
        } else if text_less(key, m[0].0) {
            lemma_removed_concat(one, m, key);
            assert(Seq::<(Seq<char>, Json)>::empty() + removed(m, key) =~= removed(m, key));
        } else {
            lemma_removed_inserted(rest, key, v);
            lemma_removed_concat(first, inserted(rest, key, v), key);
        }
    }
}

/// Removing the members under one key, and making the list under another bare, can
/// be done in either order.
proof fn lemma_removed_bare(m: Members, key: Seq<char>, other: Seq<char>)
    ensures
        removed(bare_under(m, key), other) == bare_under(removed(m, other), key),
    decreases m.len(),
{
    if m.len() > 0 {
        lemma_removed_bare(m.drop_last(), key, other);
        let out = bare_under(m, key);
        let kept = removed(m, other);
        assert(out.drop_last() =~= bare_under(m.drop_last(), key));
        if m.last().0 != other {
            assert(kept.drop_last() =~= removed(m.drop_last(), other));
        }
    }
}

/// Normalizing the list under a key does not show in bare members.
proof fn lemma_bare_under(m: Members, key: Seq<char>)
    ensures
        bare_under(norm_under(m, key), key) == bare_under(m, key),
    decreases m, 0nat,
{
    if m.len() > 0 {
        lemma_bare_under(m.drop_last(), key);
        lemma_bare_list(m.last().1);
        assert(norm_under(m, key).drop_last() =~= norm_under(m.drop_last(), key));
    }
}

/// Normalizing a list does not show in bare tasks.
proof fn lemma_bare_list(v: Json)
    ensures
        bare_list(norm_list(v)) == bare_list(v),
    decreases v, 1nat,
{
    match v {
        Json::Array(tasks) => lemma_bare_tasks(tasks),
        _ => {},
    }
}

/// Normalizing tasks does not show in bare tasks.
proof fn lemma_bare_tasks(tasks: Seq<Json>)
    ensures
        bare_tasks(norm_tasks(tasks)) == bare_tasks(tasks),
    decreases tasks, 0nat,
{
    if tasks.len() > 0 {
        lemma_bare_tasks(tasks.drop_last());
        lemma_bare_task(tasks.last());
        assert(norm_tasks(tasks).drop_last() =~= norm_tasks(tasks.drop_last()));
    }
}

/// Normalizing an entry of a list does not show in the bare one.
proof fn lemma_bare_task(j: Json)
    ensures
        bare_task(norm_task(j)) == bare_task(j),
    decreases j, 1nat,
{
    match j {
        Json::Object(m) => lemma_bare_named(m),
        _ => {},
    }
}

/// Normalizing named tasks does not show in bare ones.
proof fn lemma_bare_named(m: Members)
    ensures
        bare_named(norm_named(m)) == bare_named(m),
    decreases m, 0nat,
{
    if m.len() > 0 {
        lemma_bare_named(m.drop_last());
        law_nothing_else_changes(m.last().1);
        assert(norm_named(m).drop_last() =~= norm_named(m.drop_last()));
    }
}

/// Normalizing the members of a scope does not show in bare ones.
proof fn lemma_bare_fields(m: Members)
    ensures
        bare_fields(norm_fields(m)) == bare_fields(m),
    decreases m, 0nat,
{
    if m.len() > 0 {
        lemma_bare_fields(m.drop_last());
        lemma_bare_field(m.last().0, m.last().1);
        assert(norm_fields(m).drop_last() =~= norm_fields(m.drop_last()));
    }
}

/// Normalizing a member of a scope does not show in the bare one.
proof fn lemma_bare_field(key: Seq<char>, v: Json)
    ensures
        bare_field(key, norm_field(key, v)) == bare_field(key, v),
    decreases v, 2nat,
{
    if key == "for"@ {
        match v {
            Json::Object(m) => match lookup(m, "in"@) {
                Some(x) => lemma_removed_inserted(m, "in"@, Json::String(json_text(x))),
                None => {},
            },
            _ => {},
        }
    } else if key == "do"@ || key == "try"@ {
        lemma_bare_list(v);
    } else if key == "catch"@ {
        match v {
            Json::Object(m) => lemma_bare_under(m, "do"@),
            _ => {},
        }
    } else if key == "fork"@ {
        match v {
            Json::Object(m) => {
                let (branches, compete) = ("branches"@, "compete"@);
                let n = norm_under(m, branches);
                let out = with_compete(n);
                lemma_bare_under(m, branches);
                lemma_removed_inserted(n, compete, Json::Bool(false));
                lemma_removed_bare(out, branches, compete);
                lemma_removed_bare(n, branches, compete);
            },
            _ => {},
        }
    }
}

/// Outside of the collections of loops and of what forks say about competing, the
/// normal form of a definition is the definition: without these, at every depth,
/// the two are the same.
pub proof fn law_nothing_else_changes(j: Json)
    ensures
        bare_scope(norm_scope(j)) == bare_scope(j),
    decreases j, 1nat,
{
    match j {
        Json::Object(m) => lemma_bare_fields(m),
        _ => {},
    }
}

// ---------------------------------------------------------------------------
// Forks at every depth
// ---------------------------------------------------------------------------

/// Whether every fork of a scope, at every depth, states whether its branches
/// compete.
pub open spec fn forks_stated(j: Json) -> bool
    decreases j, 2nat,
{
    match j {
        Json::Object(m) => forall|i: int|
            0 <= i < m.len() ==> forks_stated_in((#[trigger] m[i]).0, m[i].1),
        _ => true,
    }
}

/// Whether every fork of a member of a scope states it.
pub open spec fn forks_stated_in(key: Seq<char>, v: Json) -> bool
    decreases v, 1nat,
{
    if key == "do"@ || key == "try"@ {
        forks_stated_list(v)
    } else if key == "catch"@ {
        match v {
            Json::Object(m) => forall|i: int|
                0 <= i < m.len() ==> ((#[trigger] m[i]).0 == "do"@ ==> forks_stated_list(m[i].1)),
            _ => true,
        }
    } else if key == "fork"@ {
        match v {
            Json::Object(m) => lookup(m, "compete"@) is Some && forall|i: int|
                0 <= i < m.len() ==> ((#[trigger] m[i]).0 == "branches"@ ==> forks_stated_list(
                    m[i].1,
                )),
            _ => true,
        }
    } else {
        true
    }
}

/// Whether every fork of a list of tasks states it.
pub open spec fn forks_stated_list(v: Json) -> bool
    decreases v, 0nat,
{
    match v {
        Json::Array(tasks) => forall|i: int|
            0 <= i < tasks.len() ==> forks_stated_task(#[trigger] tasks[i]),
        _ => true,
    }
}

/// Whether every fork of an entry of a list of tasks states it.
pub open spec fn forks_stated_task(j: Json) -> bool
    decreases j, 3nat,
{
    match j {
        Json::Object(m) => forall|i: int|
            0 <= i < m.len() ==> forks_stated((#[trigger] m[i]).1),
        _ => true,
    }
}

/// A list has as many tasks as before, each in its normal form.
proof fn lemma_norm_tasks(tasks: Seq<Json>)
    ensures
        norm_tasks(tasks).len() == tasks.len(),
        forall|i: int|
            0 <= i < tasks.len() ==> #[trigger] norm_tasks(tasks)[i] == norm_task(tasks[i]),
    decreases tasks.len(),
{
    if tasks.len() > 0 {
        let head = tasks.drop_last();
        lemma_norm_tasks(head);
        assert forall|i: int| 0 <= i < tasks.len() implies #[trigger] norm_tasks(tasks)[i]
            == norm_task(tasks[i]) by {
            if i < head.len() {
                assert(norm_tasks(tasks)[i] == norm_tasks(head)[i]);
                assert(head[i] == tasks[i]);
            }
        }
    }
}

/// A member after another was set is the one that was set or one from before.
proof fn lemma_inserted_from(m: Members, key: Seq<char>, v: Json, i: int) -> (k: int)
    requires
        0 <= i < inserted(m, key, v).len(),
    ensures
        inserted(m, key, v)[i] == (key, v) || (0 <= k < m.len() && inserted(m, key, v)[i] == m[k]),
    decreases m.len(),
{
    let out = inserted(m, key, v);
    if m.len() == 0 {
        0
    } else if m[0].0 == key {
        i
    } else if text_less(key, m[0].0) {
        i - 1
    } else if i == 0 {
        0
    } else {
        let k = lemma_inserted_from(m.skip(1), key, v, i - 1);
        assert(out[i] == inserted(m.skip(1), key, v)[i - 1]);
        k + 1
    }
}

/// In the normal form of a list of tasks every fork states whether its branches
/// compete.
proof fn lemma_list_stated(v: Json)
    ensures
        forks_stated_list(norm_list(v)),
    decreases v, 0nat,
{
    match v {
        Json::Array(tasks) => {
            let out = norm_tasks(tasks);
            lemma_norm_tasks(tasks);
            assert forall|i: int| 0 <= i < out.len() implies forks_stated_task(
                #[trigger] out[i],
            ) by {
                assert(out[i] == norm_task(tasks[i]));
                lemma_task_stated(tasks[i]);
            }
        },
        _ => {},
    }
}

/// In the normal form of an entry of a list every fork states it.
proof fn lemma_task_stated(j: Json)
    ensures
        forks_stated_task(norm_task(j)),
    decreases j, 3nat,
{
    match j {
        Json::Object(m) => {
            let out = norm_named(m);
            lemma_norm_named(m);
            assert forall|i: int| 0 <= i < out.len() implies forks_stated(
                (#[trigger] out[i]).1,
            ) by {
                assert(out[i] == (m[i].0, norm_scope(m[i].1)));
                law_every_fork_states_compete(m[i].1);
            }
        },
        _ => {},
    }
}

/// In members with a normalized list under a key, every fork of the list states it.
proof fn lemma_under_stated(m: Members, key: Seq<char>)
    ensures
        forall|i: int|
            0 <= i < norm_under(m, key).len() ==> ((#[trigger] norm_under(m, key)[i]).0 == key
                ==> forks_stated_list(norm_under(m, key)[i].1)),
    decreases m, 0nat,
{
    let out = norm_under(m, key);
    lemma_norm_under(m, key);
    assert forall|i: int| 0 <= i < out.len() && (#[trigger] out[i]).0
        == key implies forks_stated_list(out[i].1) by {
        assert(out[i].0 == m[i].0);
        lemma_list_stated(m[i].1);
    }
}

/// In the normal form of a member of a scope every fork states it.
proof fn lemma_field_stated(key: Seq<char>, v: Json)
    ensures
        forks_stated_in(key, norm_field(key, v)),
    decreases v, 1nat,
{
    reveal_strlit("for");
    reveal_strlit("do");
    reveal_strlit("try");
    reveal_strlit("catch");
    reveal_strlit("fork");
    assert("for"@.len() == 3 && "do"@.len() == 2 && "catch"@.len() == 5 && "fork"@.len() == 4);
    assert("for"@[0] == 'f' && "try"@[0] == 't');
    if key == "for"@ {
    } else if key == "do"@ || key == "try"@ {
        lemma_list_stated(v);
    } else if key == "catch"@ {
        match v {
            Json::Object(m) => {
                let n = norm_under(m, "do"@);
                lemma_under_stated(m, "do"@);
                assert(norm_field(key, v) == Json::Object(n));
                assert(forks_stated_in(key, Json::Object(n)));
            },
            _ => {},
        }
    } else if key == "fork"@ {
        match v {
            Json::Object(m) => {
                reveal_strlit("branches");
                reveal_strlit("compete");
                assert("branches"@.len() != "compete"@.len());
                let n = norm_under(m, "branches"@);
                let out = with_compete(n);
                lemma_under_stated(m, "branches"@);
                law_fork_states_compete(m);
                assert forall|i: int| 0 <= i < out.len() && (#[trigger] out[i]).0
                    == "branches"@ implies forks_stated_list(out[i].1) by {
                    if lookup(n, "compete"@) is None {
                        let k = lemma_inserted_from(n, "compete"@, Json::Bool(false), i);
                        assert(out[i] == n[k]);
                    }
                }
                assert(norm_field(key, v) == Json::Object(out));
                assert(forks_stated_in(key, Json::Object(out)));
            },
            _ => {},
        }
    }
}

/// In the normal form of a definition every fork, at every depth, states whether
/// its branches compete.
pub proof fn law_every_fork_states_compete(j: Json)
    ensures
        forks_stated(norm_scope(j)),
    decreases j, 2nat,
{
    match j {
        Json::Object(m) => {
            let out = norm_fields(m);
            lemma_norm_fields(m);
            assert forall|i: int| 0 <= i < out.len() implies forks_stated_in(
                (#[trigger] out[i]).0,
                out[i].1,
            ) by {
                assert(out[i] == (m[i].0, norm_field(m[i].0, m[i].1)));
                lemma_field_stated(m[i].0, m[i].1);
            }
        },
        _ => {},
    }
}

// ---------------------------------------------------------------------------
// Loops at every depth
// ---------------------------------------------------------------------------

/// Whether every loop of a scope, at every depth, has a text as its collection, or none.
pub open spec fn loops_stated(j: Json) -> bool
    decreases j, 2nat,
{
    match j {
        Json::Object(m) => forall|i: int|
            0 <= i < m.len() ==> loops_stated_in((#[trigger] m[i]).0, m[i].1),
        _ => true,
    }
}

/// Whether every loop of a member of a scope has it.
pub open spec fn loops_stated_in(key: Seq<char>, v: Json) -> bool
    decreases v, 1nat,
{
    if key == "for"@ {
        match v {
            Json::Object(m) => lookup(m, "in"@) is Some ==> lookup(m, "in"@).unwrap() is String,
            _ => true,
        }
    } else if key == "do"@ || key == "try"@ {
        loops_stated_list(v)
    } else if key == "catch"@ {
        match v {
            Json::Object(m) => forall|i: int|
                0 <= i < m.len() ==> ((#[trigger] m[i]).0 == "do"@ ==> loops_stated_list(m[i].1)),
            _ => true,
        }
    } else if key == "fork"@ {
        match v {
            Json::Object(m) => forall|i: int|
                0 <= i < m.len() ==> ((#[trigger] m[i]).0 == "branches"@ ==> loops_stated_list(
                    m[i].1,
                )),
            _ => true,
        }
    } else {
        true
    }
}

/// Whether every loop of a list of tasks has it.
pub open spec fn loops_stated_list(v: Json) -> bool
    decreases v, 0nat,
{
    match v {
        Json::Array(tasks) => forall|i: int|
            0 <= i < tasks.len() ==> loops_stated_task(#[trigger] tasks[i]),
        _ => true,
    }
}

/// Whether every loop of an entry of a list of tasks has it.
pub open spec fn loops_stated_task(j: Json) -> bool
    decreases j, 3nat,
{
    match j {
        Json::Object(m) => forall|i: int|
            0 <= i < m.len() ==> loops_stated((#[trigger] m[i]).1),
        _ => true,
    }
}

/// In the normal form of a list of tasks every loop has a text as its collection.
proof fn lemma_list_loops(v: Json)
    ensures
        loops_stated_list(norm_list(v)),
    decreases v, 0nat,
{
    match v {
        Json::Array(tasks) => {
            let out = norm_tasks(tasks);
            lemma_norm_tasks(tasks);
            assert forall|i: int| 0 <= i < out.len() implies loops_stated_task(
                #[trigger] out[i],
            ) by {
                assert(out[i] == norm_task(tasks[i]));
                lemma_task_loops(tasks[i]);
            }
        },
        _ => {},
    }
}

/// In the normal form of an entry of a list every loop has it.
proof fn lemma_task_loops(j: Json)
    ensures
        loops_stated_task(norm_task(j)),
    decreases j, 3nat,
{
    match j {
        Json::Object(m) => {
            let out = norm_named(m);
            lemma_norm_named(m);
            assert forall|i: int| 0 <= i < out.len() implies loops_stated(
                (#[trigger] out[i]).1,
            ) by {
                assert(out[i] == (m[i].0, norm_scope(m[i].1)));
                law_every_loop_has_a_text(m[i].1);
            }
        },
        _ => {},
    }
}

/// In members with a normalized list under a key, every loop of the list has it.
proof fn lemma_under_loops(m: Members, key: Seq<char>)
    ensures
        forall|i: int|
            0 <= i < norm_under(m, key).len() ==> ((#[trigger] norm_under(m, key)[i]).0 == key
                ==> loops_stated_list(norm_under(m, key)[i].1)),
    decreases m, 0nat,
{
    let out = norm_under(m, key);
    lemma_norm_under(m, key);
    assert forall|i: int| 0 <= i < out.len() && (#[trigger] out[i]).0
        == key implies loops_stated_list(out[i].1) by {
        assert(out[i].0 == m[i].0);
        lemma_list_loops(m[i].1);
    }
}

/// In the normal form of a member of a scope every loop has it.
proof fn lemma_field_loops(key: Seq<char>, v: Json)
    ensures
        loops_stated_in(key, norm_field(key, v)),
    decreases v, 1nat,
{
    if key == "for"@ {
        match v {
            Json::Object(m) => {
                law_loop_keeps_members(m, "in"@);
            },
            _ => {},
        }
    } else if key == "do"@ || key == "try"@ {
        lemma_list_loops(v);
    } else if key == "catch"@ {
        match v {
            Json::Object(m) => {
                let n = norm_under(m, "do"@);
                lemma_under_loops(m, "do"@);
                assert(norm_field(key, v) == Json::Object(n));
                assert(loops_stated_in(key, Json::Object(n)));
            },
            _ => {},
        }
    } else if key == "fork"@ {
        match v {
            Json::Object(m) => {
                reveal_strlit("branches");
                reveal_strlit("compete");
                assert("branches"@.len() != "compete"@.len());
                let n = norm_under(m, "branches"@);
                let out = with_compete(n);
                lemma_under_loops(m, "branches"@);
                assert forall|i: int| 0 <= i < out.len() && (#[trigger] out[i]).0
                    == "branches"@ implies loops_stated_list(out[i].1) by {
                    if lookup(n, "compete"@) is None {
                        let k = lemma_inserted_from(n, "compete"@, Json::Bool(false), i);
                        assert(out[i] == n[k]);
                    }
                }
                assert(norm_field(key, v) == Json::Object(out));
                assert(loops_stated_in(key, Json::Object(out)));
            },
            _ => {},
        }
    }
}

/// In the normal form of a definition every loop, at every depth, has a text as its
/// collection, or none.
pub proof fn law_every_loop_has_a_text(j: Json)
    ensures
        loops_stated(norm_scope(j)),
    decreases j, 2nat,
{
    match j {
        Json::Object(m) => {
            let out = norm_fields(m);
            lemma_norm_fields(m);
            assert forall|i: int| 0 <= i < out.len() implies loops_stated_in(
                (#[trigger] out[i]).0,
                out[i].1,
            ) by {
                assert(out[i] == (m[i].0, norm_field(m[i].0, m[i].1)));
                lemma_field_loops(m[i].0, m[i].1);
            }
        },
        _ => {},
    }
}

// ---------------------------------------------------------------------------
// Canonical form
// ---------------------------------------------------------------------------

/// Members with the keys of a canonical object and canonical values are canonical.
proof fn lemma_rebuilt_canonical(m: Members, n: Members)
    requires
        is_canonical(Json::Object(m)),
        m.len() == n.len(),
        forall|i: int| 0 <= i < m.len() ==> (#[trigger] n[i]).0 == m[i].0,
        forall|i: int| 0 <= i < n.len() ==> is_canonical((#[trigger] n[i]).1),
    ensures
        is_canonical(Json::Object(n)),
{
    lemma_same_order(m, n);
}

/// A normalized list of tasks is in canonical form.
proof fn lemma_list_canonical(v: Json)
    requires
        is_canonical(v),
    ensures
        is_canonical(norm_list(v)),
    decreases v, 0nat,
{
    match v {
        Json::Array(tasks) => {
            let out = norm_tasks(tasks);
            lemma_norm_tasks(tasks);
            assert forall|i: int| 0 <= i < out.len() implies is_canonical(#[trigger] out[i]) by {
                assert(out[i] == norm_task(tasks[i]));
                lemma_task_canonical(tasks[i]);
            }
        },
        _ => {},
    }
}

/// A normalized entry of a list is in canonical form.
proof fn lemma_task_canonical(j: Json)
    requires
        is_canonical(j),
    ensures
        is_canonical(norm_task(j)),
    decreases j, 3nat,
{
    match j {
        Json::Object(m) => {
            let out = norm_named(m);
            lemma_norm_named(m);
            assert forall|i: int| 0 <= i < out.len() implies is_canonical(
                (#[trigger] out[i]).1,
            ) by {
                assert(out[i] == (m[i].0, norm_scope(m[i].1)));
                assert(is_canonical(m[i].1));
                law_normal_form_is_canonical(m[i].1);
            }
            lemma_rebuilt_canonical(m, out);
        },
        _ => {},
    }
}

/// Members with a normalized list are in canonical form.
proof fn lemma_under_canonical(m: Members, key: Seq<char>)
    requires
        is_canonical(Json::Object(m)),
    ensures
        is_canonical(Json::Object(norm_under(m, key))),
    decreases m, 0nat,
{
    let out = norm_under(m, key);
    lemma_norm_under(m, key);
    assert forall|i: int| 0 <= i < out.len() implies is_canonical((#[trigger] out[i]).1) by {
        assert(is_canonical(m[i].1));
        lemma_list_canonical(m[i].1);
    }
    lemma_rebuilt_canonical(m, out);
}

/// A normalized member of a scope is in canonical form.
proof fn lemma_field_canonical(key: Seq<char>, v: Json)
    requires
        is_canonical(v),
    ensures
        is_canonical(norm_field(key, v)),
    decreases v, 1nat,
{
    if key == "for"@ {
        match v {
            Json::Object(m) => match lookup(m, "in"@) {
                Some(x) => lemma_insert_canonical(m, "in"@, Json::String(json_text(x))),
                None => {},
            },
            _ => {},
        }
    } else if key == "do"@ || key == "try"@ {
        lemma_list_canonical(v);
    } else if key == "catch"@ {
        match v {
            Json::Object(m) => lemma_under_canonical(m, "do"@),
            _ => {},
        }
    } else if key == "fork"@ {
        match v {
            Json::Object(m) => {
                lemma_under_canonical(m, "branches"@);
                lemma_insert_canonical(
                    norm_under(m, "branches"@),
                    "compete"@,
                    Json::Bool(false),
                );
            },
            _ => {},
        }
    }
}

/// The normal form of a definition in canonical form is in canonical form.
pub proof fn law_normal_form_is_canonical(j: Json)
    requires
        is_canonical(j),
    ensures
        is_canonical(norm_scope(j)),
    decreases j, 2nat,
{
    match j {
        Json::Object(m) => {
            let out = norm_fields(m);
            lemma_norm_fields(m);
            assert forall|i: int| 0 <= i < out.len() implies is_canonical(
                (#[trigger] out[i]).1,
            ) by {
                assert(out[i] == (m[i].0, norm_field(m[i].0, m[i].1)));
                assert(is_canonical(m[i].1));
                lemma_field_canonical(m[i].0, m[i].1);
            }
            lemma_rebuilt_canonical(m, out);
        },
        _ => {},
    }
}

// ---------------------------------------------------------------------------
// What reading is for
// ---------------------------------------------------------------------------

/// Bytes are read as YAML where they are YAML, as JSON where they are not, and refused
/// with the message of YAML where they are neither; bytes that are no text are refused
/// before that.
pub proof fn law_bytes_are_tried(
    bytes: Seq<u8>,
    a: Json,
    json: Result<Json, Seq<char>>,
    m: Seq<char>,
    other: Seq<char>,
)
    ensures
        first_success(Ok(a), json) == Ok::<Json, Seq<char>>(a),
        first_success(Err(m), Ok(a)) == Ok::<Json, Seq<char>>(a),
        first_success(Err(m), Err(other)) == Err::<Json, Seq<char>>(m),
        valid_utf8(bytes) ==> of_bytes(bytes, json) == json,
        !valid_utf8(bytes) ==> of_bytes(bytes, json) is Err,
{
}

/// A file is read as JSON where its extension is `json`, and as YAML otherwise.
pub proof fn law_extension_decides(bytes: Seq<u8>, extension: Option<Seq<char>>)
    requires
        valid_utf8(bytes),
    ensures
        file_value(bytes, Some("json"@)) == json_value(decode_utf8(bytes)),
        extension != Some("json"@) ==> file_value(bytes, extension) == yaml_value(
            decode_utf8(bytes),
        ),
{
}

/// What cannot be read or decoded is a parse error with the message of what refused it,
/// and what is decoded is decoded from its normal form.
pub proof fn law_loading(
    r: Result<Definition, DefinitionError>,
    reading: Result<Json, Seq<char>>,
)
    requires
        is_definition_of(r, loaded(reading)),
    ensures
        reading matches Err(m) ==> r is Err && r->Err_0 is Parse && r->Err_0->Parse_0@ == m,
        reading matches Ok(j) ==> match model_json(norm_scope(j)) {
            Ok(model) => r is Ok && r->Ok_0@ == definition_of(model),
            Err(m) => r is Err && r->Err_0 is Parse && r->Err_0->Parse_0@ == m,
        },
{
}

/// The texts of the errors of definitions tell what kind they are.
pub proof fn law_definition_error_texts(m: String)
    ensures
        definition_error_text(DefinitionError::Parse(m)) == "parse error: "@ + m@,
        definition_error_text(DefinitionError::Schema(m)) == "schema error: "@ + m@,
        definition_error_text(DefinitionError::Semantic(m)) == "semantic error: "@ + m@,
        definition_error_text(DefinitionError::Io(m)) == "io error: "@ + m@,
{
}

/// The keys of two definitions with namespaces and names without slashes are the same
/// only where all three parts are.
pub proof fn law_keys_tell_definitions_apart(
    a: (Seq<char>, Seq<char>, Seq<char>),
    b: (Seq<char>, Seq<char>, Seq<char>),
)
    requires
        !a.0.contains('/') && !a.1.contains('/') && !b.0.contains('/') && !b.1.contains('/'),
        id_key(a.0, a.1, a.2) == id_key(b.0, b.1, b.2),
    ensures
        a == b,
{
    reveal_strlit("/");
    let (p, q) = (a.1 + "/"@ + a.2, b.1 + "/"@ + b.2);
    assert(id_key(a.0, a.1, a.2) =~= a.0 + "/"@ + p);
    assert(id_key(b.0, b.1, b.2) =~= b.0 + "/"@ + q);
    lemma_first_part(a.0, p, b.0, q);
    lemma_first_part(a.1, a.2, b.1, b.2);
}

/// Two texts that are the same up to their first slash and behind it.
proof fn lemma_first_part(a: Seq<char>, p: Seq<char>, b: Seq<char>, q: Seq<char>)
    requires
        !a.contains('/') && !b.contains('/'),
        a + "/"@ + p == b + "/"@ + q,
    ensures
        a == b,
        p == q,
{
    reveal_strlit("/");
    let (s, t) = (a + "/"@ + p, b + "/"@ + q);
    assert(s[a.len() as int] == '/' && t[b.len() as int] == '/');
    if a.len() < b.len() {
        assert(t[a.len() as int] == b[a.len() as int]);
        assert(b.contains(b[a.len() as int]));
    }
    if b.len() < a.len() {
        assert(s[b.len() as int] == a[b.len() as int]);
        assert(a.contains(a[b.len() as int]));
    }
    assert(s.take(a.len() as int) =~= a);
    assert(t.take(b.len() as int) =~= b);
    assert(s.skip(a.len() as int + 1) =~= p);
    assert(t.skip(b.len() as int + 1) =~= q);
}

} // verus!
