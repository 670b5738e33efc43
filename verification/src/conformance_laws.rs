//! What holds of conformance scenarios and their verdicts.
use crate::conformance::{
    DocumentModel, Execution, ExecutionModel, Kind, PropertyAssertion, Reading, ResultModel,
    RunErrorModel, RunModel, RunResultModel, ScenarioModel, ScenarioStatus, StepModel, count_of,
    document_of, feature_read, is_preparation, issue_codes, kind_of, labelled, law_failures_stay,
    line_read, lines_read, missing_properties, names_around, path_value, place_of, stepped,
    task_kind_of, unread, uses_network, value_at, verdict,
};
use crate::document::yaml_value;
use crate::error::ErrorKind;
use crate::expressions::operators::is_equal;
use crate::json::{Json, Object};
use crate::model::definition_of;
use crate::text::{
    char_test, find_from, joined, lemma_find_from, line_test, lines_of, occurs, occurs_at,
    run_end, run_start, space_test, split_by, split_parts, stripped_of, trimmed, trimmed_end,
    trimmed_start, without_suffix,
};
use crate::validate::{Definition, definition_issues};
use crate::value::{json_text, lookup};
use vstd::prelude::*;

verus! {

// ---------------------------------------------------------------------------
// Verdicts
// ---------------------------------------------------------------------------

/// A step that was taken, with what came of the execution where there was one.
pub ghost struct Taken {
    pub step: StepModel,
    pub execution: Option<ExecutionModel>,
}

/// The state before the first step of a scenario.
pub open spec fn fresh() -> RunModel {
    RunModel {
        definition: None,
        input: Json::Null,
        executed: false,
        result: None,
        order: Seq::empty(),
        failures: Seq::empty(),
    }
}

/// The state after some steps of a scenario.
pub open spec fn after(taken: Seq<Taken>) -> RunModel
    decreases taken.len(),
{
    if taken.len() == 0 {
        fresh()
    } else {
        let last = taken.last();
        stepped(
            after(taken.drop_last()),
            kind_of(trimmed(last.step.text)),
            document_of(last.step.doc_string),
            last.execution,
        )
    }
}

/// Whether the steps of a scenario give the verdict that it passes.
pub open spec fn passes(feature: Seq<char>, name: Seq<char>, taken: Seq<Taken>) -> bool {
    verdict(feature, name, after(taken).failures).status == ScenarioStatus::Pass
}

/// A scenario passes only where no step found a failure.
proof fn lemma_no_failures(feature: Seq<char>, name: Seq<char>, taken: Seq<Taken>, i: int)
    requires
        passes(feature, name, taken),
        0 <= i <= taken.len(),
    ensures
        after(taken.take(i)).failures.len() == 0,
    decreases taken.len() - i,
{
    if i == taken.len() {
        assert(taken.take(i) =~= taken);
    } else {
        lemma_no_failures(feature, name, taken, i + 1);
        let next = taken.take(i + 1);
        assert(next.drop_last() =~= taken.take(i));
        law_failures_stay(
            after(taken.take(i)),
            kind_of(trimmed(next.last().step.text)),
            document_of(next.last().step.doc_string),
            next.last().execution,
        );
    }
}

/// A step that ran in a scenario that passes found no failure.
proof fn lemma_step_passes(feature: Seq<char>, name: Seq<char>, taken: Seq<Taken>, i: int)
    requires
        passes(feature, name, taken),
        0 <= i < taken.len(),
    ensures
        after(taken.take(i)).failures.len() == 0,
        stepped(
            after(taken.take(i)),
            kind_of(trimmed(taken[i].step.text)),
            document_of(taken[i].step.doc_string),
            taken[i].execution,
        ).failures.len() == 0,
{
    lemma_no_failures(feature, name, taken, i);
    lemma_no_failures(feature, name, taken, i + 1);
    let next = taken.take(i + 1);
    assert(next.drop_last() =~= taken.take(i));
    assert(next.last() == taken[i]);
}

/// The steps that speak of the workflow as a whole, told by their text.
pub proof fn law_workflow_steps(rest: Seq<char>)
    ensures
        kind_of("a workflow with definition:"@) == Kind::Definition,
        kind_of("given the workflow input is:"@) == Kind::Input,
        kind_of("the workflow is executed"@) == Kind::Execute,
        kind_of("the workflow should complete"@) == (Kind::Completes { output: false }),
        kind_of("the workflow should complete with output:"@ + rest) == (Kind::Completes {
            output: true,
        }),
        kind_of("the workflow should fault"@) == (Kind::Faults { error: false }),
        kind_of("the workflow should fault with error:"@ + rest) == (Kind::Faults {
            error: true,
        }),
        kind_of("the workflow should cancel"@) == Kind::Cancels,
{
    reveal_strlit("a workflow with definition:");
    reveal_strlit("given the workflow input is:");
    reveal_strlit("the workflow is executed");
    reveal_strlit("the workflow should complete");
    reveal_strlit("the workflow should complete with output:");
    reveal_strlit("the workflow should fault");
    reveal_strlit("the workflow should fault with error:");
    reveal_strlit("the workflow should cancel");
    let (definition, input, execute) = (
        "a workflow with definition:"@,
        "given the workflow input is:"@,
        "the workflow is executed"@,
    );
    let (complete, output) = (
        "the workflow should complete"@,
        "the workflow should complete with output:"@,
    );
    let (fault, error, cancel) = (
        "the workflow should fault"@,
        "the workflow should fault with error:"@,
        "the workflow should cancel"@,
    );
    assert(definition[0] == 'a' && input[0] == 'g' && execute[0] == 't');
    assert(execute[13] == 'i' && cancel[13] == 's');
    assert(complete[20] == 'c' && fault[20] == 'f' && cancel[20] == 'c');
    assert(complete[21] == 'o' && cancel[21] == 'a');
    assert(complete.len() == 28 && output.len() == 41 && fault.len() == 25 && error.len() == 37);
    assert(cancel.len() == 26 && execute.len() == 24);
    let s = output + rest;
    assert(s.subrange(0, 28) =~= complete);
    assert(s.subrange(0, 41) =~= output);
    assert(s[0] == 't' && s[13] == 's');
    let t = error + rest;
    assert(t.subrange(0, 25) =~= fault);
    assert(t.subrange(0, 37) =~= error);
    assert(t[0] == 't' && t[13] == 's' && t[20] == 'f');
    assert(t.subrange(0, 28)[20] == t[20]);
    assert(complete.subrange(0, 28) =~= complete);
    assert(fault.subrange(0, 25) =~= fault);
    assert(!complete.is_prefix_of(fault) && !complete.is_prefix_of(cancel));
    assert(!fault.is_prefix_of(cancel)) by {
        assert(cancel.subrange(0, 25)[20] == cancel[20]);
    }
    assert(!complete.is_prefix_of(t));
}

/// The value in the document of a step: that of the YAML text under it, or null where
/// there is none or it cannot be read.
pub open spec fn expected_value(step: StepModel) -> Json {
    if step.doc_string is Some && yaml_value(step.doc_string.unwrap()) is Ok {
        yaml_value(step.doc_string.unwrap())->Ok_0
    } else {
        Json::Null
    }
}

/// A scenario with a step that asks for a fault with an error, after an execution that
/// faulted, passes only where the problem that was reported is equal to the value of
/// the document of the step.
pub proof fn law_fault_is_compared(
    feature: Seq<char>,
    name: Seq<char>,
    taken: Seq<Taken>,
    i: int,
    rest: Seq<char>,
    e: RunErrorModel,
)
    requires
        passes(feature, name, taken),
        0 <= i < taken.len(),
        trimmed(taken[i].step.text) == "the workflow should fault with error:"@ + rest,
        after(taken.take(i)).result == Some(Err::<Json, RunErrorModel>(e)),
    ensures
        is_equal(e.problem, expected_value(taken[i].step)),
{
    law_workflow_steps(rest);
    lemma_step_passes(feature, name, taken, i);
}

/// A scenario with a step that asks for an output, after an execution, passes only
/// where the execution completed with a value equal to that of the document.
pub proof fn law_output_is_compared(
    feature: Seq<char>,
    name: Seq<char>,
    taken: Seq<Taken>,
    i: int,
    rest: Seq<char>,
)
    requires
        passes(feature, name, taken),
        0 <= i < taken.len(),
        trimmed(taken[i].step.text) == "the workflow should complete with output:"@ + rest,
        after(taken.take(i)).result is Some,
    ensures
        after(taken.take(i)).result.unwrap() matches Ok(v) && is_equal(
            v,
            expected_value(taken[i].step),
        ),
{
    law_workflow_steps(rest);
    lemma_step_passes(feature, name, taken, i);
}

/// A scenario that asks for completion, a fault or a cancellation after an execution
/// passes only where the execution ended so.
pub proof fn law_end_is_checked(
    feature: Seq<char>,
    name: Seq<char>,
    taken: Seq<Taken>,
    i: int,
    r: RunResultModel,
)
    requires
        passes(feature, name, taken),
        0 <= i < taken.len(),
        after(taken.take(i)).result == Some(r),
    ensures
        trimmed(taken[i].step.text) == "the workflow should complete"@ ==> r is Ok,
        trimmed(taken[i].step.text) == "the workflow should fault"@ ==> r is Err,
        trimmed(taken[i].step.text) == "the workflow should cancel"@ ==> r is Err
            && r->Err_0.kind == ErrorKind::Cancelled,
{
    law_workflow_steps(Seq::empty());
    lemma_step_passes(feature, name, taken, i);
}

/// What a step asks of the workflow holds exactly where it finds no failure: that it
/// completed, faulted or was cancelled, with the value or the error that was asked.
pub proof fn law_workflow_checks(
    st: RunModel,
    doc: DocumentModel,
    execution: Option<ExecutionModel>,
    r: RunResultModel,
)
    requires
        st.failures.len() == 0,
        st.result == Some(r),
    ensures
        ({
            let wanted = if doc is Some && doc.unwrap() is Ok {
                doc.unwrap()->Ok_0
            } else {
                Json::Null
            };
            let done = |kind: Kind| stepped(st, kind, doc, execution).failures.len() == 0;
            &&& done(Kind::Completes { output: false }) <==> r is Ok
            &&& done(Kind::Completes { output: true }) <==> r is Ok && is_equal(r->Ok_0, wanted)
            &&& done(Kind::Faults { error: false }) <==> r is Err
            &&& done(Kind::Faults { error: true }) <==> r is Err && is_equal(
                r->Err_0.problem,
                wanted,
            )
            &&& done(Kind::Cancels) <==> r is Err && r->Err_0.kind == ErrorKind::Cancelled
        }),
{
}

/// A failure of a check tells what was expected and what was found.
pub proof fn law_workflow_messages(
    st: RunModel,
    wanted: Json,
    execution: Option<ExecutionModel>,
    r: RunResultModel,
)
    requires
        st.failures.len() == 0,
        st.result == Some(r),
    ensures
        ({
            let found = |kind: Kind| stepped(st, kind, Some(Ok(wanted)), execution).failures;
            &&& r matches Ok(v) ==> {
                &&& found(Kind::Faults { error: false }) == seq![
                    "expected fault, got output "@ + json_text(v),
                ]
                &&& found(Kind::Cancels) == seq!["expected cancellation, got completion"@]
                &&& !is_equal(v, wanted) ==> found(Kind::Completes { output: true }) == seq![
                    "output mismatch: "@ + "expected "@ + json_text(wanted) + ", got "@
                        + json_text(v),
                ]
            }
            &&& r matches Err(e) ==> {
                &&& found(Kind::Completes { output: false }) == seq![
                    "expected completion, got fault: "@ + e.text,
                ]
                &&& e.kind != ErrorKind::Cancelled ==> found(Kind::Cancels) == seq![
                    "expected cancellation, got: "@ + e.text,
                ]
                &&& !is_equal(e.problem, wanted) ==> found(Kind::Faults { error: true }) == seq![
                    "error mismatch: "@ + "expected "@ + json_text(wanted) + ", got "@
                        + json_text(e.problem),
                ]
            }
        }),
{
    let found = |kind: Kind| stepped(st, kind, Some(Ok(wanted)), execution).failures;
    let none = Seq::<Seq<char>>::empty();
    assert(st.failures =~= none);
    assert forall|a: Seq<char>| none + #[trigger] seq![a] =~= seq![a] by {}
    match r {
        Ok(v) => {
            assert(found(Kind::Faults { error: false }) =~= seq![
                "expected fault, got output "@ + json_text(v),
            ]);
            assert(found(Kind::Cancels) =~= seq!["expected cancellation, got completion"@]);
            if !is_equal(v, wanted) {
                assert(found(Kind::Completes { output: true }) =~= seq![
                    "output mismatch: "@ + "expected "@ + json_text(wanted) + ", got "@
                        + json_text(v),
                ]);
            }
        },
        Err(e) => {
            assert(found(Kind::Completes { output: false }) =~= seq![
                "expected completion, got fault: "@ + e.text,
            ]);
            if e.kind != ErrorKind::Cancelled {
                assert(found(Kind::Cancels) =~= seq!["expected cancellation, got: "@ + e.text]);
            }
            if !is_equal(e.problem, wanted) {
                assert(found(Kind::Faults { error: true }) =~= seq![
                    "error mismatch: "@ + "expected "@ + json_text(wanted) + ", got "@
                        + json_text(e.problem),
                ]);
            }
        },
    }
}

/// Without an execution a workflow cannot be said to have completed.
pub proof fn law_completion_needs_execution(
    st: RunModel,
    output: bool,
    doc: DocumentModel,
    execution: Option<ExecutionModel>,
)
    requires
        st.failures.len() == 0,
        st.result is None,
    ensures
        stepped(st, Kind::Completes { output }, doc, execution).failures.len() == 0
            <==> st.executed,
{
}

/// What was executed is what the later steps look at: the result and the order of the
/// tasks. A definition that cannot be decoded, is invalid or cannot be compiled, and
/// an execution without a definition, fail the scenario.
pub proof fn law_execution(
    st: RunModel,
    doc: DocumentModel,
    execution: ExecutionModel,
)
    requires
        st.failures.len() == 0,
    ensures
        ({
            let next = stepped(st, Kind::Execute, doc, Some(execution));
            &&& next.executed
            &&& next.definition == st.definition && next.input == st.input
            &&& st.definition is None ==> next.failures.len() == 1 && next.result == st.result
            &&& st.definition is Some ==> {
                &&& execution matches ExecutionModel::Ran { result, order } ==> next.result
                    == Some(result) && next.order == order && next.failures.len() == 0
                &&& !(execution is Ran) ==> next.failures.len() == 1 && next.result == st.result
            }
        }),
{
}

/// A document under the step that gives the definition or the input is taken over; one
/// that cannot be read fails the scenario as a definition and counts as null as an
/// input.
pub proof fn law_given_documents(
    st: RunModel,
    text: Seq<char>,
    execution: Option<ExecutionModel>,
)
    requires
        st.failures.len() == 0,
    ensures
        ({
            let doc = document_of(Some(text));
            let defined = stepped(st, Kind::Definition, doc, execution);
            let given = stepped(st, Kind::Input, doc, execution);
            &&& yaml_value(text) matches Ok(v) ==> {
                &&& defined == (RunModel { definition: Some(v), ..st })
                &&& given == (RunModel { input: v, ..st })
            }
            &&& yaml_value(text) matches Err(m) ==> {
                &&& defined.failures == seq!["failed to parse workflow definition: "@ + m]
                &&& given == (RunModel { input: Json::Null, ..st })
            }
            &&& stepped(st, Kind::Definition, document_of(None), execution) == st
            &&& stepped(st, Kind::Input, document_of(None), execution) == st
        }),
{
    let doc = document_of(Some(text));
    match yaml_value(text) {
        Err(m) => {
            assert(stepped(st, Kind::Definition, doc, execution).failures =~= seq![
                "failed to parse workflow definition: "@ + m,
            ]);
        },
        Ok(_) => {},
    }
}

// ---------------------------------------------------------------------------
// Tasks
// ---------------------------------------------------------------------------

/// The place of a text in a list is the first one.
pub proof fn law_first_place(list: Seq<Seq<char>>, s: Seq<char>)
    ensures
        match place_of(list, s) {
            Some(i) => i < list.len() && list[i as int] == s && forall|j: int|
                0 <= j < i ==> list[j] != s,
            None => !list.contains(s),
        },
    decreases list.len(),
{
    if list.len() > 0 && list[0] != s {
        law_first_place(list.skip(1), s);
        match place_of(list.skip(1), s) {
            Some(i) => {
                assert(list.skip(1)[i as int] == list[i as int + 1]);
                assert forall|j: int| 0 <= j < i + 1 implies list[j] != s by {
                    if j > 0 {
                        assert(list.skip(1)[j - 1] == list[j]);
                    }
                }
            },
            None => {
                if list.contains(s) {
                    let k = choose|k: int| 0 <= k < list.len() && list[k] == s;
                    assert(list.skip(1)[k - 1] == s);
                }
            },
        }
    }
}

/// Whether a task ran for the first time at a place.
pub open spec fn ran_at(order: Seq<Seq<char>>, task: Seq<char>, i: int) -> bool {
    0 <= i < order.len() && order[i] == task && forall|j: int|
        0 <= j < i ==> #[trigger] order[j] != task
}

/// A check on the order of two tasks passes exactly where both ran, and the one ran
/// first before or behind the other.
pub proof fn law_task_order(
    st: RunModel,
    a: Seq<char>,
    b: Seq<char>,
    doc: DocumentModel,
    execution: Option<ExecutionModel>,
)
    requires
        st.failures.len() == 0,
    ensures
        stepped(st, Kind::RunsBefore(a, b), doc, execution).failures.len() == 0 <==> exists|
            i: int,
            j: int,
        | #[trigger]
            ran_at(st.order, a, i) && #[trigger] ran_at(st.order, b, j) && i < j,
        stepped(st, Kind::RunsAfter(a, b), doc, execution).failures.len() == 0 <==> exists|
            i: int,
            j: int,
        | #[trigger]
            ran_at(st.order, a, i) && #[trigger] ran_at(st.order, b, j) && i > j,
{
    law_first_place(st.order, a);
    law_first_place(st.order, b);
    let (p, q) = (place_of(st.order, a), place_of(st.order, b));
    if p is Some && q is Some {
        assert(ran_at(st.order, a, p.unwrap() as int));
        assert(ran_at(st.order, b, q.unwrap() as int));
    }
    assert forall|i: int| ran_at(st.order, a, i) implies p == Some(i as nat) by {
        assert(st.order.contains(a));
    }
    assert forall|i: int| ran_at(st.order, b, i) implies q == Some(i as nat) by {
        assert(st.order.contains(b));
    }
}

/// A check on one task passes exactly where it ran first, ran last, or ran at all. The
/// task that faulted is the last one.
pub proof fn law_task_checks(
    st: RunModel,
    task: Seq<char>,
    doc: DocumentModel,
    execution: Option<ExecutionModel>,
)
    requires
        st.failures.len() == 0,
    ensures
        ({
            let name = trimmed(task);
            let done = |kind: Kind| stepped(st, kind, doc, execution).failures.len() == 0;
            let n = st.order.len();
            &&& done(Kind::RunsFirst(task)) <==> n > 0 && st.order[0] == name
            &&& done(Kind::RunsLast(task)) <==> n > 0 && st.order[n - 1] == name
            &&& done(Kind::TaskFaults(task)) <==> n > 0 && st.order[n - 1] == name
            &&& done(Kind::TaskCompletes(task)) <==> st.order.contains(name)
            &&& done(Kind::TaskCancels(task)) <==> st.order.contains(name)
            &&& done(Kind::Ignored)
        }),
{
    law_first_place(st.order, trimmed(task));
}

// ---------------------------------------------------------------------------
// Properties
// ---------------------------------------------------------------------------

/// Whether a path leads to a value: each name on it is that of a member of the value
/// before it.
pub open spec fn leads_to(j: Json, names: Seq<Seq<char>>, v: Json) -> bool
    decreases names.len(),
{
    if names.len() == 0 {
        v == j
    } else {
        j is Object && lookup(j->Object_0, names[0]) is Some && leads_to(
            lookup(j->Object_0, names[0]).unwrap(),
            names.skip(1),
            v,
        )
    }
}

/// The value at a path is the one that its names lead to, one member below the other.
pub proof fn law_paths(j: Json, names: Seq<Seq<char>>, v: Json)
    ensures
        value_at(j, names) == Some(v) <==> leads_to(j, names, v),
    decreases names.len(),
{
    if names.len() > 0 {
        match j {
            Json::Object(m) => match lookup(m, names[0]) {
                Some(w) => law_paths(w, names.skip(1), v),
                None => {},
            },
            _ => {},
        }
    }
}

/// The value at a name without a dot is that of the member with the name; behind a dot
/// the path goes on from there.
pub proof fn law_dotted_paths(j: Json, name: Seq<char>, rest: Seq<char>)
    requires
        !name.contains('.'),
    ensures
        path_value(j, name) == (if j is Object {
            lookup(j->Object_0, name)
        } else {
            None
        }),
        path_value(j, name + "."@ + rest) == (match path_value(j, name) {
            Some(v) => path_value(v, rest),
            None => None,
        }),
{
    reveal_strlit(".");
    let dot = "."@;
    lemma_find_from(name, dot, 0);
    match find_from(name, dot, 0) {
        Some(at) => {
            assert(name.subrange(at, at + 1)[0] == name[at]);
            assert(name.contains(name[at]));
        },
        None => {},
    }
    assert(split_parts(name, dot) == seq![name]);
    assert(seq![name].skip(1) =~= Seq::empty());
    assert(seq![name][0] == name);
    match j {
        Json::Object(m) => match lookup(m, name) {
            Some(v) => assert(value_at(v, seq![name].skip(1)) == Some(v)),
            None => {},
        },
        _ => {},
    }
    let s = name + dot + rest;
    let n = name.len() as int;
    lemma_find_from(s, dot, 0);
    assert(s.subrange(n, n + 1) =~= dot);
    assert(occurs_at(s, dot, n));
    assert forall|i: int| 0 <= i < n implies !occurs_at(s, dot, i) by {
        if occurs_at(s, dot, i) {
            assert(s.subrange(i, i + 1)[0] == s[i]);
            assert(name[i] == '.');
            assert(name.contains(name[i]));
        }
    }
    assert(find_from(s, dot, 0) == Some(n));
    assert(s.take(n) =~= name);
    assert(s.skip(n + 1) =~= rest);
    let parts = seq![name] + split_by(rest, dot);
    assert(split_parts(s, dot) == parts);
    assert(parts[0] == name);
    assert(parts.skip(1) =~= split_by(rest, dot));
}

/// A check on properties passes exactly where the output has a value at every path; on
/// one property, where its value is equal to the one that is asked, or is an array of
/// so many items.
pub proof fn law_property_checks(
    st: RunModel,
    output: Json,
    paths: Seq<Seq<char>>,
    path: Seq<char>,
    count: usize,
    doc: DocumentModel,
    execution: Option<ExecutionModel>,
)
    requires
        st.failures.len() == 0,
        st.result == Some(Ok::<Json, RunErrorModel>(output)),
    ensures
        ({
            let wanted = if doc is Some && doc.unwrap() is Ok {
                doc.unwrap()->Ok_0
            } else {
                Json::Null
            };
            let found = path_value(output, path);
            let done = |kind: Kind| stepped(st, kind, doc, execution).failures.len() == 0;
            &&& done(Kind::Properties(paths)) <==> forall|i: int|
                0 <= i < paths.len() ==> path_value(output, #[trigger] paths[i]) is Some
            &&& done(Kind::Property(path, PropertyAssertion::WithValue)) <==> is_equal(
                if found is Some {
                    found.unwrap()
                } else {
                    Json::Null
                },
                wanted,
            )
            &&& done(Kind::Property(path, PropertyAssertion::ItemCount(count)))
                <==> found is Some && found.unwrap() is Array && found.unwrap()->Array_0.len()
                == count
        }),
{
    lemma_missing(output, paths);
}

/// No property is missing where each has a value.
proof fn lemma_missing(output: Json, paths: Seq<Seq<char>>)
    ensures
        missing_properties(output, paths).len() == 0 <==> forall|i: int|
            0 <= i < paths.len() ==> path_value(output, #[trigger] paths[i]) is Some,
    decreases paths.len(),
{
    if paths.len() > 0 {
        let head = paths.drop_last();
        lemma_missing(output, head);
        assert forall|i: int| 0 <= i < head.len() implies #[trigger] head[i] == paths[i] by {}
        if missing_properties(output, paths).len() == 0 {
            assert forall|i: int| 0 <= i < paths.len() implies path_value(
                output,
                #[trigger] paths[i],
            ) is Some by {
                if i < head.len() {
                    assert(path_value(output, head[i]) is Some);
                }
            }
        } else {
            if forall|i: int|
                0 <= i < paths.len() ==> path_value(output, #[trigger] paths[i]) is Some {
                assert forall|i: int| 0 <= i < head.len() implies path_value(
                    output,
                    #[trigger] head[i],
                ) is Some by {
                    assert(path_value(output, paths[i]) is Some);
                }
                assert(path_value(output, paths[paths.len() - 1]) is Some);
            }
        }
    }
}

// ---------------------------------------------------------------------------
// Reports
// ---------------------------------------------------------------------------

/// A scenario passes exactly where nothing failed, and otherwise fails with all
/// messages, in their order.
pub proof fn law_verdict(feature: Seq<char>, name: Seq<char>, failures: Seq<Seq<char>>)
    ensures
        ({
            let v = verdict(feature, name, failures);
            &&& v.feature == feature && v.name == name
            &&& v.status == ScenarioStatus::Pass <==> failures.len() == 0
            &&& v.status != ScenarioStatus::Skip
            &&& failures.len() == 0 ==> v.message is None
            &&& failures.len() > 0 ==> v.message == Some(joined(failures, "; "@))
        }),
{
}

/// The number of results with a verdict is that of the results that have it.
pub proof fn law_counts(results: Seq<ResultModel>, status: ScenarioStatus)
    ensures
        count_of(results, status) == results.filter(|r: ResultModel| r.status == status).len(),
    decreases results.len(),
{
    reveal(Seq::filter);
    if results.len() > 0 {
        law_counts(results.drop_last(), status);
    }
}

/// A scenario calls the network exactly where a document under one of its steps holds
/// a call of HTTP or OpenAPI.
pub proof fn law_network(s: ScenarioModel)
    ensures
        uses_network(s) <==> exists|i: int|
            0 <= i < s.steps.len() && (#[trigger] s.steps[i]).doc_string is Some && (occurs(
                s.steps[i].doc_string.unwrap(),
                "call: http"@,
            ) || occurs(s.steps[i].doc_string.unwrap(), "call: openapi"@)),
{
}

// ---------------------------------------------------------------------------
// Feature files
// ---------------------------------------------------------------------------

/// The labels of the lines of a feature file start with different characters.
proof fn lemma_labels(x: Seq<char>)
    ensures
        forall|label: Seq<char>, other: Seq<char>|
            label.len() > 0 && other.len() > 0 && label[0] != other[0] ==> !#[trigger] (
            other.is_prefix_of(#[trigger] (label + x))),
        forall|label: Seq<char>| #[trigger] label.is_prefix_of(label + x),
        forall|label: Seq<char>| #[trigger] (label + x).skip(label.len() as int) == x,
        "Feature:"@.len() == 8 && "Feature:"@[0] == 'F',
        "Scenario:"@.len() == 9 && "Scenario:"@[0] == 'S',
        "\"\"\""@.len() == 3 && "\"\"\""@[0] == '"',
        "#"@.len() == 1 && "#"@[0] == '#',
        "Given "@.len() == 6 && "Given "@[0] == 'G',
        "When "@.len() == 5 && "When "@[0] == 'W',
        "Then "@.len() == 5 && "Then "@[0] == 'T',
        "And "@.len() == 4 && "And "@[0] == 'A',
        "But "@.len() == 4 && "But "@[0] == 'B',
{
    reveal_strlit("Feature:");
    reveal_strlit("Scenario:");
    reveal_strlit("\"\"\"");
    reveal_strlit("#");
    reveal_strlit("Given ");
    reveal_strlit("When ");
    reveal_strlit("Then ");
    reveal_strlit("And ");
    reveal_strlit("But ");
    assert forall|label: Seq<char>, other: Seq<char>|
        label.len() > 0 && other.len() > 0 && label[0] != other[0] implies !#[trigger] (
    other.is_prefix_of(#[trigger] (label + x))) by {
        let s = label + x;
        if other.is_prefix_of(s) {
            assert(s.subrange(0, other.len() as int)[0] == s[0]);
        }
    }
    assert forall|label: Seq<char>| #[trigger] label.is_prefix_of(label + x) by {
        assert((label + x).subrange(0, label.len() as int) =~= label);
    }
    assert forall|label: Seq<char>| #[trigger] (label + x).skip(label.len() as int) == x by {
        assert((label + x).skip(label.len() as int) =~= x);
    }
}

/// Outside of a document, a line that starts with `Feature:` names the feature, and a
/// line that starts with `Scenario:` ends the scenario before it, with its last step,
/// and starts one of that name without steps.
pub proof fn law_title_lines(r: Reading, raw: Seq<char>, x: Seq<char>)
    requires
        r.doc is None,
    ensures
        trimmed(trimmed_end(raw)) == "Feature:"@ + x ==> line_read(r, raw) == (Reading {
            name: trimmed(x),
            ..r
        }),
        trimmed(trimmed_end(raw)) == "Scenario:"@ + x ==> {
            let next = line_read(r, raw);
            &&& next.name == r.name && next.step is None && next.doc is None
            &&& next.scenario == Some(
                (ScenarioModel { name: trimmed(x), steps: Seq::empty() }),
            )
            &&& r.scenario is None ==> next.scenarios == r.scenarios
            &&& r.scenario is Some && r.step is None ==> next.scenarios == r.scenarios.push(
                r.scenario.unwrap(),
            )
            &&& r.scenario is Some && r.step is Some ==> next.scenarios == r.scenarios.push(
                (ScenarioModel {
                    name: r.scenario.unwrap().name,
                    steps: r.scenario.unwrap().steps.push(r.step.unwrap()),
                }),
            )
        },
{
    lemma_labels(x);
    let t = trimmed(trimmed_end(raw));
    if t == "Scenario:"@ + x {
        assert(!"Feature:"@.is_prefix_of("Scenario:"@ + x));
    }
}

/// Outside of a document, a line with a keyword of steps ends the step before it and
/// starts one with that keyword and the text behind it. Blank lines and comments change
/// nothing.
pub proof fn law_step_lines(r: Reading, raw: Seq<char>, x: Seq<char>, keyword: Seq<char>)
    requires
        r.doc is None,
        r.scenario is Some,
        keyword == "Given"@ || keyword == "When"@ || keyword == "Then"@ || keyword == "And"@
            || keyword == "But"@,
    ensures
        trimmed(trimmed_end(raw)) == keyword + " "@ + x ==> {
            let next = line_read(r, raw);
            &&& next.name == r.name && next.scenarios == r.scenarios && next.doc is None
            &&& next.step == Some(
                (StepModel { keyword, text: trimmed(x), doc_string: None }),
            )
            &&& next.scenario.unwrap().name == r.scenario.unwrap().name
            &&& next.scenario is Some
            &&& next.scenario.unwrap().steps == if r.step is Some {
                r.scenario.unwrap().steps.push(r.step.unwrap())
            } else {
                r.scenario.unwrap().steps
            }
        },
        trimmed(trimmed_end(raw)).len() == 0 ==> line_read(r, raw) == r,
        trimmed(trimmed_end(raw)) == "#"@ + x ==> line_read(r, raw) == r,
{
    lemma_labels(x);
    reveal_strlit("Given");
    reveal_strlit("When");
    reveal_strlit("Then");
    reveal_strlit("And");
    reveal_strlit("But");
    reveal_strlit(" ");
    reveal_strlit("Given ");
    reveal_strlit("When ");
    reveal_strlit("Then ");
    reveal_strlit("And ");
    reveal_strlit("But ");
    assert("Given"@ + " "@ =~= "Given "@);
    assert("When"@ + " "@ =~= "When "@);
    assert("Then"@ + " "@ =~= "Then "@);
    assert("And"@ + " "@ =~= "And "@);
    assert("But"@ + " "@ =~= "But "@);
    let label = keyword + " "@;
    let t = trimmed(trimmed_end(raw));
    if t == keyword + " "@ + x {
        assert(t == label + x);
        assert(!"Feature:"@.is_prefix_of(label + x));
        assert(!"Scenario:"@.is_prefix_of(label + x));
        assert(!"\"\"\""@.is_prefix_of(label + x));
        assert(!"#"@.is_prefix_of(label + x));
        assert("Given "@ == label || !"Given "@.is_prefix_of(label + x));
        assert("When "@ == label || !"When "@.is_prefix_of(label + x));
        assert("Then "@ == label || !"Then "@.is_prefix_of(label + x));
        assert("And "@ == label || !"And "@.is_prefix_of(label + x));
        assert(label.is_prefix_of(label + x));
        assert(labelled(t, label) == trimmed(x));
    }
    if t == "#"@ + x {
        assert(!"Feature:"@.is_prefix_of("#"@ + x));
        assert(!"Scenario:"@.is_prefix_of("#"@ + x));
        assert(!"\"\"\""@.is_prefix_of("#"@ + x));
    }
}

/// A document starts at a line of three quotation marks and ends at the next one. The
/// lines between, without white space at their ends, are its text, each with a line
/// feed, and belong to the step before it.
pub proof fn law_document_lines(
    r: Reading,
    raw: Seq<char>,
    doc: Seq<char>,
    step: StepModel,
    x: Seq<char>,
)
    ensures
        r.doc is None && trimmed(trimmed_end(raw)) == "\"\"\""@ + x ==> line_read(r, raw) == (
        Reading { doc: Some(Seq::empty()), ..r }),
        r.doc == Some(doc) && trimmed_start(trimmed_end(raw)) == "\"\"\""@ + x && r.step == Some(
            step,
        ) ==> line_read(r, raw) == (Reading {
            doc: None,
            step: Some((StepModel { doc_string: Some(doc), ..step })),
            ..r
        }),
        r.doc == Some(doc) && !"\"\"\""@.is_prefix_of(trimmed_start(trimmed_end(raw)))
            ==> line_read(r, raw) == (Reading {
            doc: Some(doc + trimmed_end(raw) + seq!['\n']),
            ..r
        }),
{
    lemma_labels(x);
    let marks = "\"\"\""@;
    assert(!"Feature:"@.is_prefix_of(marks + x));
    assert(!"Scenario:"@.is_prefix_of(marks + x));
    assert(marks.is_prefix_of(marks + x));
    assert((doc + trimmed_end(raw)).push('\n') =~= doc + trimmed_end(raw) + seq!['\n']);
}

/// What a feature file holds is read line by line, and the last scenario ends with the
/// file, with its last step.
pub proof fn law_feature(text: Seq<char>, lines: Seq<Seq<char>>, line: Seq<char>)
    ensures
        lines_read(Seq::empty()) == unread(),
        lines_read(lines.push(line)) == line_read(lines_read(lines), line),
        ({
            let last = lines_read(lines_of(text));
            let read = feature_read(text);
            &&& read.name == last.name
            &&& last.scenario is None ==> read.scenarios == last.scenarios
            &&& last.scenario is Some && last.step is None ==> read.scenarios
                == last.scenarios.push(last.scenario.unwrap())
            &&& last.scenario is Some && last.step is Some ==> read.scenarios
                == last.scenarios.push(
                (ScenarioModel {
                    name: last.scenario.unwrap().name,
                    steps: last.scenario.unwrap().steps.push(last.step.unwrap()),
                }),
            )
        }),
{
    assert(lines.push(line).drop_last() =~= lines);
}

/// The lines of a text end at line feeds, which are no part of them, and a carriage
/// return before a line feed is none either.
pub proof fn law_lines(line: Seq<char>, rest: Seq<char>)
    requires
        !line.contains('\n'),
    ensures
        lines_of(Seq::empty()) == Seq::<Seq<char>>::empty(),
        line.len() > 0 ==> lines_of(line) == seq![line],
        lines_of(line + seq!['\n'] + rest) == seq![
            if line.len() > 0 && line.last() == '\r' {
                line.drop_last()
            } else {
                line
            },
        ] + lines_of(rest),
{
    let n = line.len() as int;
    assert forall|k: int| 0 <= k < n implies line_test()(#[trigger] line[k]) by {
        assert(line.contains(line[k]));
    }
    lemma_run_to(line, 0, n);
    let s = line + seq!['\n'] + rest;
    assert(s[n] == '\n');
    assert forall|k: int| 0 <= k < n implies line_test()(#[trigger] s[k]) by {
        assert(s[k] == line[k]);
    }
    lemma_run_to(s, 0, n);
    assert(s.take(n) =~= line);
    assert(s.skip(n + 1) =~= rest);
}

/// A run of the characters of a line ends at a line feed or at the end of the text.
proof fn lemma_run_to(s: Seq<char>, i: int, end: int)
    requires
        0 <= i <= end <= s.len(),
        forall|k: int| i <= k < end ==> line_test()(#[trigger] s[k]),
        end < s.len() ==> s[end] == '\n',
    ensures
        run_end(s, i, line_test()) == end,
    decreases end - i,
{
    if i < end {
        assert(line_test()(s[i]));
        lemma_run_to(s, i + 1, end);
    }
}

// ---------------------------------------------------------------------------
// Steps on tasks and properties
// ---------------------------------------------------------------------------

/// The steps that speak of one task, told by how they end. The name of the task starts
/// otherwise than the other steps do.
pub proof fn law_task_steps(task: Seq<char>)
    requires
        task.len() > 0,
        task[0] != 't' && task[0] != 'a' && task[0] != 'g',
        !occurs(task, "should"@),
    ensures
        kind_of(task + " should run first"@) == Kind::RunsFirst(task),
        kind_of(task + " should run last"@) == Kind::RunsLast(task),
        kind_of(task + " should complete"@) == Kind::TaskCompletes(task),
        kind_of(task + " should fault"@) == Kind::TaskFaults(task),
        kind_of(task + " should cancel"@) == Kind::TaskCancels(task),
{
    reveal_strlit(" should run first");
    reveal_strlit(" should run last");
    lemma_task_text(task, " should run first"@);
    lemma_task_text(task, " should run last"@);
    let (a, b) = (task + " should run first"@, task + " should run last"@);
    lemma_suffix(task, " should run first"@);
    lemma_suffix(task, " should run last"@);
    assert(" should run first"@.len() == 17 && " should run last"@.len() == 16);
    if " should run first"@.is_suffix_of(b) {
        let n = b.len() as int;
        assert(b.subrange(n - 17, n)[14] == b[n - 3]);
        assert(b[n - 3] == " should run last"@[13]);
    }
    lemma_end_steps(task);
}

/// The steps on how a task ended.
proof fn lemma_end_steps(task: Seq<char>)
    requires
        task.len() > 0,
        task[0] != 't' && task[0] != 'a' && task[0] != 'g',
        !occurs(task, "should"@),
    ensures
        kind_of(task + " should complete"@) == Kind::TaskCompletes(task),
        kind_of(task + " should fault"@) == Kind::TaskFaults(task),
        kind_of(task + " should cancel"@) == Kind::TaskCancels(task),
{
    reveal_strlit(" should complete");
    reveal_strlit(" should fault");
    reveal_strlit(" should cancel");
    reveal_strlit(" should run first");
    reveal_strlit(" should run last");
    let (c, f, x) = (" should complete"@, " should fault"@, " should cancel"@);
    assert(c.len() == 16 && f.len() == 13 && x.len() == 14);
    assert(" should run first"@.len() == 17 && " should run last"@.len() == 16);
    lemma_task_text(task, c);
    lemma_task_text(task, f);
    lemma_task_text(task, x);
    lemma_suffix(task, c);
    lemma_suffix(task, f);
    lemma_suffix(task, x);
    lemma_no_order(task, c);
    lemma_no_order(task, f);
    lemma_no_order(task, x);
    lemma_other_end(task, c, " should run first"@, 1);
    lemma_other_end(task, c, " should run last"@, 1);
    lemma_other_end(task, f, " should run first"@, 2);
    lemma_other_end(task, f, " should run last"@, 2);
    lemma_other_end(task, f, c, 1);
    lemma_other_end(task, x, " should run first"@, 1);
    lemma_other_end(task, x, " should run last"@, 1);
    lemma_other_end(task, x, c, 1);
    lemma_other_end(task, x, f, 1);
}

/// A text does not end with another that differs at a place counted from the end.
proof fn lemma_other_end(head: Seq<char>, tail: Seq<char>, suffix: Seq<char>, k: int)
    requires
        0 < k <= tail.len(),
        k <= suffix.len(),
        tail[tail.len() - k] != suffix[suffix.len() - k],
    ensures
        without_suffix(head + tail, suffix) is None,
{
    let s = head + tail;
    if suffix.is_suffix_of(s) {
        let d = s.len() - suffix.len();
        assert(s.subrange(d, s.len() as int)[suffix.len() - k] == s[s.len() - k]);
        assert(s[s.len() - k] == tail[tail.len() - k]);
    }
}

/// A step on how a task ended speaks of no order.
proof fn lemma_no_order(task: Seq<char>, tail: Seq<char>)
    requires
        !occurs(task, "should"@),
        tail == " should complete"@ || tail == " should fault"@ || tail == " should cancel"@,
    ensures
        names_around(task + tail, "should run before"@) is None,
        names_around(task + tail, "should run after"@) is None,
{
    reveal_strlit(" should complete");
    reveal_strlit(" should fault");
    reveal_strlit(" should cancel");
    reveal_strlit("should");
    reveal_strlit("should run before");
    reveal_strlit("should run after");
    let (before, behind) = ("should run before"@, "should run after"@);
    assert(before.len() == 17 && behind.len() == 16);
    assert(before.subrange(0, 6) =~= "should"@);
    assert(behind.subrange(0, 6) =~= "should"@);
    lemma_no_keyword(task, tail, before);
    lemma_no_keyword(task, tail, behind);
}

/// A keyword of an order stands nowhere in a step on how a task ended.
proof fn lemma_no_keyword(task: Seq<char>, tail: Seq<char>, keyword: Seq<char>)
    requires
        !occurs(task, "should"@),
        tail.len() > 8 && tail[0] == ' ' && tail[1] == 's' && tail[8] != 'r',
        forall|k: int| 2 <= k < tail.len() ==> #[trigger] tail[k] != 's',
        keyword.len() > 8,
        keyword.subrange(0, 6) == "should"@,
        keyword[0] == 's' && keyword[7] == 'r',
        forall|k: int| 0 <= k < 6 ==> #[trigger] keyword[k] != ' ',
    ensures
        find_from(task + tail, keyword, 0) is None,
{
    let s = task + tail;
    let n = task.len() as int;
    lemma_find_from(s, keyword, 0);
    if find_from(s, keyword, 0) is Some {
        let at = find_from(s, keyword, 0).unwrap();
        let found = s.subrange(at, at + keyword.len());
        assert(found == keyword);
        assert(found[0] == s[at] && found[7] == s[at + 7]);
        if at + 6 <= n {
            assert(task.subrange(at, at + 6) =~= keyword.subrange(0, 6)) by {
                assert forall|k: int| 0 <= k < 6 implies task.subrange(at, at + 6)[k]
                    == keyword.subrange(0, 6)[k] by {
                    assert(found[k] == s[at + k]);
                }
            }
            reveal_strlit("should");
            assert(occurs_at(task, "should"@, at));
        } else if at <= n {
            assert(found[n - at] == s[n]);
            assert(keyword[n - at] != ' ');
            assert(s[n] == tail[0]);
        } else if at == n + 1 {
            assert(s[at + 7] == tail[8]);
        } else {
            assert(s[at] == tail[at - n]);
            assert(tail[at - n] != 's');
        }
    }
}

/// A text that ends with a suffix, and what stands before it.
proof fn lemma_suffix(head: Seq<char>, suffix: Seq<char>)
    ensures
        without_suffix(head + suffix, suffix) == Some(head),
{
    let s = head + suffix;
    assert(s.subrange(s.len() - suffix.len(), s.len() as int) =~= suffix);
    assert(s.take(s.len() - suffix.len()) =~= head);
}

/// A text that starts with none of the first characters of the other steps speaks of
/// tasks.
proof fn lemma_task_text(task: Seq<char>, suffix: Seq<char>)
    requires
        task.len() > 0,
        task[0] != 't' && task[0] != 'a' && task[0] != 'g',
    ensures
        kind_of(task + suffix) == task_kind_of(task + suffix),
{
    reveal_strlit("a workflow with definition:");
    reveal_strlit("given the workflow input is:");
    reveal_strlit("the workflow is executed");
    reveal_strlit("the workflow should complete");
    reveal_strlit("the workflow should fault");
    reveal_strlit("the workflow should cancel");
    reveal_strlit("the workflow output should have properties");
    reveal_strlit("the workflow output should have a ");
    let s = task + suffix;
    assert(s[0] == task[0]);
    assert("a workflow with definition:"@[0] == 'a');
    assert("given the workflow input is:"@[0] == 'g');
    assert("the workflow is executed"@[0] == 't');
    assert("the workflow should cancel"@[0] == 't');
    lemma_not_prefix("the workflow should complete"@, s);
    lemma_not_prefix("the workflow should fault"@, s);
    lemma_not_prefix("the workflow output should have properties"@, s);
    lemma_not_prefix("the workflow output should have a "@, s);
}

/// A text does not start with another that starts otherwise.
proof fn lemma_not_prefix(prefix: Seq<char>, s: Seq<char>)
    requires
        prefix.len() > 0,
        s.len() > 0,
        prefix[0] != s[0],
    ensures
        !prefix.is_prefix_of(s),
{
    if prefix.is_prefix_of(s) {
        assert(s.subrange(0, prefix.len() as int)[0] == s[0]);
    }
}

/// The steps that speak of the order of two tasks, with the names of both in quotation
/// marks.
pub proof fn law_order_steps(a: Seq<char>, b: Seq<char>)
    requires
        a.len() > 0 && b.len() > 0,
        a[0] != '\'' && a.last() != '\'' && b[0] != '\'' && b.last() != '\'',
        !occurs(seq!['\''] + a + seq!['\'', ' '], "should"@),
        !occurs(seq![' ', '\''] + b + seq!['\''], "should"@),
    ensures
        kind_of(
            seq!['\''] + a + seq!['\'', ' '] + "should run before"@ + (seq![' ', '\''] + b + seq![
                '\'',
            ]),
        ) == Kind::RunsBefore(a, b),
        kind_of(
            seq!['\''] + a + seq!['\'', ' '] + "should run after"@ + (seq![' ', '\''] + b + seq![
                '\'',
            ]),
        ) == Kind::RunsAfter(a, b),
{
    reveal_strlit("should run before");
    reveal_strlit("should run after");
    reveal_strlit("should");
    reveal_strlit(" should run first");
    reveal_strlit(" should run last");
    let (before, behind) = ("should run before"@, "should run after"@);
    let head = seq!['\''] + a + seq!['\'', ' '];
    let tail = seq![' ', '\''] + b + seq!['\''];
    assert(before.len() == 17 && behind.len() == 16);
    assert(before.subrange(0, 6) =~= "should"@ && behind.subrange(0, 6) =~= "should"@);
    lemma_quoted(a, b);
    lemma_around(head, before, tail);
    lemma_around(head, behind, tail);
    lemma_other_keyword(head, behind, tail, before);
    let (s, t) = (head + before + tail, head + behind + tail);
    assert(s == head + (before + tail)) by {
        assert(s =~= head + (before + tail));
    }
    assert(t == head + (behind + tail)) by {
        assert(t =~= head + (behind + tail));
    }
    lemma_task_text(head, before + tail);
    lemma_task_text(head, behind + tail);
    assert(tail.last() == '\'');
    lemma_other_end(head + before, tail, " should run first"@, 1);
    lemma_other_end(head + before, tail, " should run last"@, 1);
    lemma_other_end(head + behind, tail, " should run first"@, 1);
    lemma_other_end(head + behind, tail, " should run last"@, 1);
}

/// What is left of quoted names.
proof fn lemma_quoted(a: Seq<char>, b: Seq<char>)
    requires
        a.len() > 0 && b.len() > 0,
        a[0] != '\'' && a.last() != '\'' && b[0] != '\'' && b.last() != '\'',
    ensures
        stripped_of(trimmed(seq!['\''] + a + seq!['\'', ' ']), '\'') == a,
        stripped_of(trimmed(seq![' ', '\''] + b + seq!['\'']), '\'') == b,
{
    let head = seq!['\''] + a + seq!['\'', ' '];
    let x = seq!['\''] + a + seq!['\''];
    let n = head.len() as int;
    assert(head[n - 1] == ' ' && head[n - 2] == '\'' && head[0] == '\'');
    assert(run_start(head, n - 1, space_test()) == n - 1);
    assert(space_test()(head[n - 1]));
    assert(run_start(head, n, space_test()) == n - 1);
    assert(trimmed_end(head) =~= x);
    assert(x[0] == '\'');
    assert(run_end(x, 0, space_test()) == 0);
    assert(trimmed_start(x) =~= x);
    lemma_unquoted(a);
    let tail = seq![' ', '\''] + b + seq!['\''];
    let y = seq!['\''] + b + seq!['\''];
    let m = tail.len() as int;
    assert(tail[m - 1] == '\'' && tail[0] == ' ' && tail[1] == '\'');
    assert(run_start(tail, m, space_test()) == m);
    assert(trimmed_end(tail) =~= tail);
    assert(space_test()(tail[0]));
    assert(run_end(tail, 1, space_test()) == 1);
    assert(run_end(tail, 0, space_test()) == 1);
    assert(trimmed_start(tail) =~= y);
    lemma_unquoted(b);
}

/// A text between two quotation marks without them.
proof fn lemma_unquoted(a: Seq<char>)
    requires
        a.len() > 0,
        a[0] != '\'' && a.last() != '\'',
    ensures
        stripped_of(seq!['\''] + a + seq!['\''], '\'') == a,
{
    let x = seq!['\''] + a + seq!['\''];
    let test = char_test('\'');
    let n = x.len() as int;
    assert(x[n - 1] == '\'' && x[n - 2] == a.last() && x[0] == '\'' && x[1] == a[0]);
    assert(test(x[n - 1]) && !test(x[n - 2]));
    assert(run_start(x, n - 1, test) == n - 1);
    assert(run_start(x, n, test) == n - 1);
    let y = x.take(n - 1);
    assert(y[0] == '\'' && y[1] == a[0]);
    assert(test(y[0]) && !test(y[1]));
    assert(run_end(y, 1, test) == 1);
    assert(run_end(y, 0, test) == 1);
    assert(y.skip(1) =~= a);
}

/// The names around a keyword of an order.
proof fn lemma_around(head: Seq<char>, keyword: Seq<char>, tail: Seq<char>)
    requires
        head.len() > 0 && head.last() == ' ',
        keyword.len() > 6,
        keyword.subrange(0, 6) == "should"@,
        !occurs(head, "should"@),
    ensures
        names_around(head + keyword + tail, keyword) == Some(
            (stripped_of(trimmed(head), '\''), stripped_of(trimmed(tail), '\'')),
        ),
{
    let s = head + keyword + tail;
    let n = head.len() as int;
    lemma_find_from(s, keyword, 0);
    assert(s.subrange(0, n) =~= head);
    assert(s.subrange(n, n + keyword.len()) =~= keyword);
    assert(occurs_at(s, keyword, n));
    let at = find_from(s, keyword, 0).unwrap();
    if at < n {
        lemma_not_before(head, s, keyword, at);
    }
    assert(s.take(n) =~= head);
    assert(s.skip(n + keyword.len()) =~= tail);
}

/// No keyword of an order starts before the end of a text without its first word.
proof fn lemma_not_before(head: Seq<char>, s: Seq<char>, keyword: Seq<char>, at: int)
    requires
        head.len() > 0 && head.last() == ' ',
        head.is_prefix_of(s),
        keyword.len() > 6,
        keyword.subrange(0, 6) == "should"@,
        !occurs(head, "should"@),
        0 <= at < head.len(),
    ensures
        !occurs_at(s, keyword, at),
{
    if occurs_at(s, keyword, at) {
        lemma_word_before(head, s, keyword, at);
        if at + 6 <= head.len() {
            assert(occurs_at(head, "should"@, at));
        }
    }
}

/// The first word of a keyword that starts in a text stands in it, or is cut by its end.
proof fn lemma_word_before(head: Seq<char>, s: Seq<char>, keyword: Seq<char>, at: int)
    requires
        head.len() > 0 && head.last() == ' ',
        head.is_prefix_of(s),
        keyword.len() > 6,
        keyword.subrange(0, 6) == "should"@,
        0 <= at < head.len(),
        occurs_at(s, keyword, at),
    ensures
        at + 6 <= head.len(),
        head.subrange(at, at + 6) == "should"@,
        "should"@.len() == 6,
{
    reveal_strlit("should");
    let word = "should"@;
    let n = head.len() as int;
    let found = s.subrange(at, at + keyword.len());
    assert(word.len() == 6);
    assert forall|k: int| 0 <= k < 6 implies #[trigger] word[k] == s[at + k] by {
        assert(keyword.subrange(0, 6)[k] == keyword[k]);
        assert(found[k] == s[at + k]);
    }
    assert forall|k: int| 0 <= k < n implies #[trigger] head[k] == s[k] by {
        assert(s.subrange(0, n)[k] == s[k]);
    }
    if at + 6 <= n {
        assert(head.subrange(at, at + 6) =~= word) by {
            assert forall|k: int| 0 <= k < 6 implies head.subrange(at, at + 6)[k] == word[k] by {
                assert(head[at + k] == s[at + k]);
            }
        }
    } else {
        assert(word[n - 1 - at] == s[n - 1]);
        assert(head[n - 1] == s[n - 1]);
    }
}

/// The other keyword of an order stands nowhere.
proof fn lemma_other_keyword(
    head: Seq<char>,
    keyword: Seq<char>,
    tail: Seq<char>,
    other: Seq<char>,
)
    requires
        head.len() > 0 && head.last() == ' ',
        keyword == "should run after"@,
        other == "should run before"@,
        !occurs(head, "should"@),
        !occurs(tail, "should"@),
    ensures
        names_around(head + keyword + tail, other) is None,
{
    reveal_strlit("should run before");
    reveal_strlit("should run after");
    reveal_strlit("should");
    let s = head + keyword + tail;
    let n = head.len() as int;
    assert(keyword.len() == 16 && other.len() == 17);
    assert(other.subrange(0, 6) =~= "should"@);
    assert(s.subrange(0, n) =~= head);
    lemma_find_from(s, other, 0);
    if find_from(s, other, 0) is Some {
        let at = find_from(s, other, 0).unwrap();
        let found = s.subrange(at, at + 17);
        assert(found == other);
        assert(found[0] == s[at] && found[11] == s[at + 11]);
        if at < n {
            lemma_not_before(head, s, other, at);
        } else if at < n + 16 {
            assert(s[at] == keyword[at - n]);
            assert(at == n);
            assert(s[at + 11] == keyword[11]);
        } else {
            let k = at - n - 16;
            assert(tail.subrange(k, k + 6) =~= "should"@) by {
                assert forall|j: int| 0 <= j < 6 implies tail.subrange(k, k + 6)[j]
                    == "should"@[j] by {
                    assert(found[j] == s[at + j]);
                    assert(s[at + j] == tail[k + j]);
                }
            }
            assert(occurs_at(tail, "should"@, k));
        }
    }
}

// ---------------------------------------------------------------------------
// Before a run
// ---------------------------------------------------------------------------

/// A definition runs only where it was decoded and no rule is violated; one that violates
/// rules is refused with the code of each violation, and one that cannot be decoded with
/// the message of the decoder.
pub proof fn law_preparation(
    r: Result<Definition, Execution>,
    model: Result<Json, Seq<char>>,
)
    requires
        is_preparation(r, model),
    ensures
        r matches Ok(def) ==> model is Ok && definition_issues(def@).len() == 0,
        model matches Err(m) ==> r is Err && r->Err_0@ == ExecutionModel::Undecodable(m),
        model matches Ok(j) ==> {
            let issues = definition_issues(definition_of(j));
            &&& r is Ok <==> issues.len() == 0
            &&& issues.len() > 0 ==> r is Err && r->Err_0@ is Invalid && r->Err_0@->Invalid_0
                == Seq::new(issues.len(), |i: int| issues[i].code)
        },
{
    match model {
        Ok(j) => {
            let issues = definition_issues(definition_of(j));
            assert(issue_codes(issues) =~= Seq::new(issues.len(), |i: int| issues[i].code));
        },
        Err(_) => {},
    }
}

} // verus!
