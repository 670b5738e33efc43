//! The semantic rules for workflow definitions.
use crate::text::{concat2, concat3, opt_view, starts_with, text_eq};
use vstd::prelude::*;

verus! {

/// What the rules read of a definition.
#[derive(Debug)]
pub struct Definition {
    /// The version of the language.
    pub dsl: String,
    /// The namespace of the workflow.
    pub namespace: String,
    /// The name of the workflow.
    pub name: String,
    /// The version of the workflow.
    pub version: String,
    /// The tasks of the workflow.
    pub tasks: TaskList,
}

/// A list of named tasks. An entry can be without a task.
#[derive(Debug)]
pub struct TaskList {
    pub entries: Vec<Option<TaskEntry>>,
}

/// A task with its name.
#[derive(Debug)]
pub struct TaskEntry {
    pub name: String,
    pub task: Task,
}

/// A task: where the flow goes after it, and what it holds.
#[derive(Debug)]
pub struct Task {
    /// The flow directive, if there is one.
    pub flow: Option<String>,
    /// What the task holds.
    pub body: TaskBody,
}

/// What a task holds, as far as the rules look into it.
#[derive(Debug)]
pub enum TaskBody {
    /// Nothing that the rules look into.
    Simple,
    /// A sequence of tasks.
    Do(TaskList),
    /// A loop over a collection.
    For { collection: String, tasks: TaskList },
    /// Branches that run at once.
    Fork(TaskList),
    /// Tasks with an optional handler.
    Try { tasks: TaskList, handler: Option<TaskList> },
    /// Cases with conditions. An entry can be without a case.
    Switch(Vec<Option<SwitchCase>>),
}

/// A case of a switch.
#[derive(Debug)]
pub struct SwitchCase {
    pub name: String,
    /// The condition; a case without one is the default.
    pub when: Option<String>,
    /// The flow directive, if there is one.
    pub flow: Option<String>,
}

/// The model of a [`Definition`].
pub ghost struct DefinitionModel {
    pub dsl: Seq<char>,
    pub namespace: Seq<char>,
    pub name: Seq<char>,
    pub version: Seq<char>,
    pub tasks: Seq<Option<EntryModel>>,
}

/// The model of a [`TaskEntry`].
pub ghost struct EntryModel {
    pub name: Seq<char>,
    pub task: TaskModel,
}

/// The model of a [`Task`].
pub ghost struct TaskModel {
    pub flow: Option<Seq<char>>,
    pub body: BodyModel,
}

/// The model of a [`TaskBody`].
pub ghost enum BodyModel {
    Simple,
    Do(Seq<Option<EntryModel>>),
    For { collection: Seq<char>, tasks: Seq<Option<EntryModel>> },
    Fork(Seq<Option<EntryModel>>),
    Try { tasks: Seq<Option<EntryModel>>, handler: Option<Seq<Option<EntryModel>>> },
    Switch(Seq<Option<CaseModel>>),
}

/// The model of a [`SwitchCase`].
pub ghost struct CaseModel {
    pub name: Seq<char>,
    pub when: Option<Seq<char>>,
    pub flow: Option<Seq<char>>,
}

/// The model of a list of tasks.
pub open spec fn list_model(tasks: TaskList) -> Seq<Option<EntryModel>>
    decreases tasks,
{
    Seq::new(
        tasks.entries@.len(),
        |i: int|
            if 0 <= i < tasks.entries@.len() {
                entry_model(tasks.entries@[i])
            } else {
                None
            },
    )
}

/// The model of an entry of a list of tasks.
pub open spec fn entry_model(entry: Option<TaskEntry>) -> Option<EntryModel>
    decreases entry,
{
    match entry {
        Some(e) => Some(
            (EntryModel {
                name: e.name@,
                task: TaskModel { flow: opt_view(e.task.flow), body: body_model(e.task.body) },
            }),
        ),
        None => None,
    }
}

/// The model of what a task holds.
pub open spec fn body_model(body: TaskBody) -> BodyModel
    decreases body,
{
    match body {
        TaskBody::Simple => BodyModel::Simple,
        TaskBody::Do(tasks) => BodyModel::Do(list_model(tasks)),
        TaskBody::For { collection, tasks } => BodyModel::For {
            collection: collection@,
            tasks: list_model(tasks),
        },
        TaskBody::Fork(tasks) => BodyModel::Fork(list_model(tasks)),
        TaskBody::Try { tasks, handler } => BodyModel::Try {
            tasks: list_model(tasks),
            handler: match handler {
                Some(h) => Some(list_model(h)),
                None => None,
            },
        },
        TaskBody::Switch(cases) => BodyModel::Switch(case_models(cases@)),
    }
}

/// The models of the cases of a switch.
pub open spec fn case_models(cases: Seq<Option<SwitchCase>>) -> Seq<Option<CaseModel>> {
    cases.map_values(|c: Option<SwitchCase>| case_model(c))
}

/// The model of an entry of a switch.
pub open spec fn case_model(case: Option<SwitchCase>) -> Option<CaseModel> {
    match case {
        Some(c) => Some(
            (CaseModel { name: c.name@, when: opt_view(c.when), flow: opt_view(c.flow) }),
        ),
        None => None,
    }
}

impl View for TaskList {
    type V = Seq<Option<EntryModel>>;

    open spec fn view(&self) -> Seq<Option<EntryModel>> {
        list_model(*self)
    }
}

impl View for TaskBody {
    type V = BodyModel;

    open spec fn view(&self) -> BodyModel {
        body_model(*self)
    }
}

impl View for Definition {
    type V = DefinitionModel;

    open spec fn view(&self) -> DefinitionModel {
        DefinitionModel {
            dsl: self.dsl@,
            namespace: self.namespace@,
            name: self.name@,
            version: self.version@,
            tasks: self.tasks@,
        }
    }
}

/// A violation of a rule.
#[derive(Debug)]
pub struct ValidationIssue {
    /// The code of the rule.
    pub code: String,
    /// What is wrong, for people.
    pub message: String,
    /// A pointer to the component, if it is known.
    pub instance: Option<String>,
}

/// The model of a [`ValidationIssue`].
pub ghost struct Issue {
    pub code: Seq<char>,
    pub message: Seq<char>,
    pub instance: Option<Seq<char>>,
}

impl View for ValidationIssue {
    type V = Issue;

    open spec fn view(&self) -> Issue {
        Issue { code: self.code@, message: self.message@, instance: opt_view(self.instance) }
    }
}

impl ValidationIssue {
    /// A violation of the rule with a code.
    pub fn new(code: &str, message: &str) -> (r: Self)
        ensures
            r@ == (Issue { code: code@, message: message@, instance: None }),
    {
        Self { code: code.to_owned(), message: message.to_owned(), instance: None }
    }

    /// The violation at a component.
    pub fn at(self, instance: &str) -> (r: Self)
        ensures
            r@ == (Issue { instance: Some(instance@), ..self@ }),
    {
        Self { instance: Some(instance.to_owned()), ..self }
    }
}

/// The models of a list of issues.
pub open spec fn issue_views(issues: Seq<ValidationIssue>) -> Seq<Issue> {
    issues.map_values(|i: ValidationIssue| i@)
}

/// What a validation found.
#[derive(Debug)]
pub struct ValidationReport {
    /// The violations; a valid definition has none.
    pub issues: Vec<ValidationIssue>,
}

impl ValidationReport {
    /// Whether there is no violation.
    pub fn is_valid(&self) -> (r: bool)
        ensures
            r == (self.issues@.len() == 0),
    {
        self.issues.len() == 0
    }

    /// Adds a violation at a component.
    fn note(&mut self, code: &str, message: &str, instance: &str)
        ensures
            issue_views(final(self).issues@) == issue_views(old(self).issues@).push(
                issue(code@, message@, instance@),
            ),
    {
        let ghost before = self.issues@;
        let one = ValidationIssue::new(code, message).at(instance);
        self.issues.push(one);
        assert(issue_views(self.issues@) =~= issue_views(before).push(one@));
    }
}

// ---------------------------------------------------------------------------
// Rules
// ---------------------------------------------------------------------------

/// A violation at a component.
pub open spec fn issue(code: Seq<char>, message: Seq<char>, instance: Seq<char>) -> Issue {
    Issue { code, message, instance: Some(instance) }
}

/// A violation if a condition holds, otherwise none.
pub open spec fn issue_if(
    bad: bool,
    code: Seq<char>,
    message: Seq<char>,
    instance: Seq<char>,
) -> Seq<Issue> {
    if bad {
        seq![issue(code, message, instance)]
    } else {
        Seq::empty()
    }
}

/// A component below another.
pub open spec fn below(pointer: Seq<char>, part: Seq<char>) -> Seq<char> {
    pointer + part
}

/// Whether a list has a task of a name.
pub open spec fn has_task(entries: Seq<Option<EntryModel>>, name: Seq<char>) -> bool {
    exists|i: int|
        0 <= i < entries.len() && (#[trigger] entries[i] matches Some(e) ==> e.name == name)
            && entries[i] is Some
}

/// Whether a flow directive goes somewhere: on, out, to the end, or to a task of
/// the list.
pub open spec fn flow_leads(entries: Seq<Option<EntryModel>>, flow: Seq<char>) -> bool {
    flow == "continue"@ || flow == "exit"@ || flow == "end"@ || has_task(entries, flow)
}

/// The violations of a flow directive.
pub open spec fn flow_issues(
    entries: Seq<Option<EntryModel>>,
    flow: Option<Seq<char>>,
    pointer: Seq<char>,
) -> Seq<Issue> {
    match flow {
        Some(f) => issue_if(
            !flow_leads(entries, f),
            "flow.unknown-target"@,
            "flow directive `"@ + f + "` does not match any task in scope"@,
            below(pointer, "/then"@),
        ),
        None => Seq::empty(),
    }
}

/// The violations of a case of a switch, where a default case stands before it or
/// not.
pub open spec fn case_issues(
    c: CaseModel,
    default_seen: bool,
    pointer: Seq<char>,
) -> Seq<Issue> {
    issue_if(
        c.when is None && default_seen,
        "switch.multiple-default"@,
        "switch may only have one default case"@,
        pointer + "/"@ + c.name,
    ) + issue_if(
        c.flow is None,
        "switch.then.required"@,
        "switch case must define a `then` directive"@,
        pointer + "/"@ + c.name,
    )
}

/// Whether a default case stands among cases.
pub open spec fn has_default(cases: Seq<Option<CaseModel>>) -> bool {
    exists|i: int| 0 <= i < cases.len() && is_default(#[trigger] cases[i])
}

/// Whether an entry of a switch is a default case.
pub open spec fn is_default(c: Option<CaseModel>) -> bool {
    match c {
        Some(x) => x.when is None,
        None => false,
    }
}

/// The violations of the cases of a switch.
pub open spec fn cases_issues(cases: Seq<Option<CaseModel>>, pointer: Seq<char>) -> Seq<Issue>
    decreases cases.len(),
{
    if cases.len() == 0 {
        Seq::empty()
    } else {
        cases_issues(cases.drop_last(), pointer) + match cases.last() {
            Some(c) => case_issues(c, has_default(cases.drop_last()), pointer),
            None => Seq::empty(),
        }
    }
}

/// The violations of a switch.
pub open spec fn switch_issues(cases: Seq<Option<CaseModel>>, pointer: Seq<char>) -> Seq<Issue> {
    if cases.len() == 0 {
        seq![issue("switch.empty"@, "switch must define at least one case"@, pointer)]
    } else {
        cases_issues(cases, pointer)
    }
}

/// The violations in a list of tasks.
pub open spec fn scope_issues(tasks: Seq<Option<EntryModel>>, pointer: Seq<char>) -> Seq<Issue>
    decreases tasks, 1nat,
{
    entries_issues(tasks, tasks, pointer)
}

/// The violations of some entries of a list of tasks.
pub open spec fn entries_issues(
    entries: Seq<Option<EntryModel>>,
    all: Seq<Option<EntryModel>>,
    pointer: Seq<char>,
) -> Seq<Issue>
    decreases entries, 0nat,
{
    if entries.len() == 0 {
        Seq::empty()
    } else {
        entries_issues(entries.drop_last(), all, pointer) + entry_issues(
            entries.last(),
            all,
            pointer,
        )
    }
}

/// The violations of an entry: those of its flow directive, then those inside.
pub open spec fn entry_issues(
    entry: Option<EntryModel>,
    all: Seq<Option<EntryModel>>,
    pointer: Seq<char>,
) -> Seq<Issue>
    decreases entry, 0nat,
{
    match entry {
        Some(e) => flow_issues(all, e.task.flow, pointer + "/"@ + e.name) + body_issues(
            e.task.body,
            pointer + "/"@ + e.name,
        ),
        None => Seq::empty(),
    }
}

/// The violations inside a task.
pub open spec fn body_issues(body: BodyModel, pointer: Seq<char>) -> Seq<Issue>
    decreases body, 0nat,
{
    match body {
        BodyModel::Simple => Seq::empty(),
        BodyModel::Do(tasks) => scope_issues(tasks, below(pointer, "/do"@)),
        BodyModel::For { collection, tasks } => issue_if(
            collection.len() == 0,
            "for.in.required"@,
            "for loop must define an `in` collection"@,
            below(pointer, "/for/in"@),
        ) + scope_issues(tasks, below(pointer, "/do"@)),
        BodyModel::Fork(tasks) => scope_issues(tasks, below(pointer, "/fork/branches"@)),
        BodyModel::Try { tasks, handler } => scope_issues(tasks, below(pointer, "/try"@))
            + match handler {
            Some(h) => scope_issues(h, below(pointer, "/catch/do"@)),
            None => Seq::empty(),
        },
        BodyModel::Switch(cases) => switch_issues(cases, pointer),
    }
}

/// The violations of the document part of a definition.
pub open spec fn document_issues(def: DefinitionModel) -> Seq<Issue> {
    issue_if(
        def.name.len() == 0,
        "document.name.required"@,
        "workflow name must not be empty"@,
        "/document/name"@,
    ) + issue_if(
        def.version.len() == 0,
        "document.version.required"@,
        "workflow version must not be empty"@,
        "/document/version"@,
    ) + (if def.dsl.len() == 0 {
        seq![
            issue("document.dsl.required"@, "DSL version must not be empty"@, "/document/dsl"@),
        ]
    } else {
        issue_if(
            !"1."@.is_prefix_of(def.dsl),
            "document.dsl.unsupported"@,
            "unsupported DSL version `"@ + def.dsl + "`"@,
            "/document/dsl"@,
        )
    })
}

/// The violations of a definition.
pub open spec fn definition_issues(def: DefinitionModel) -> Seq<Issue> {
    document_issues(def) + issue_if(
        def.tasks.len() == 0,
        "do.empty"@,
        "workflow must define at least one task"@,
        "/do"@,
    ) + scope_issues(def.tasks, "/do"@)
}

// ---------------------------------------------------------------------------
// Validation
// ---------------------------------------------------------------------------

/// Validates a definition.
pub fn validate(def: &Definition) -> (r: ValidationReport)
    ensures
        issue_views(r.issues@) == definition_issues(def@),
{
    let mut report = ValidationReport { issues: Vec::new() };
    assert(issue_views(report.issues@) =~= Seq::empty());
    if def.name.as_str().is_empty() {
        report.note("document.name.required", "workflow name must not be empty", "/document/name");
    }
    if def.version.as_str().is_empty() {
        report.note(
            "document.version.required",
            "workflow version must not be empty",
            "/document/version",
        );
    }
    if def.dsl.as_str().is_empty() {
        report.note("document.dsl.required", "DSL version must not be empty", "/document/dsl");
    } else if !starts_with(def.dsl.as_str(), "1.") {
        let message = concat3("unsupported DSL version `", def.dsl.as_str(), "`");
        report.note("document.dsl.unsupported", message.as_str(), "/document/dsl");
    }
    assert(issue_views(report.issues@) =~= document_issues(def@));
    if def.tasks.entries.len() == 0 {
        report.note("do.empty", "workflow must define at least one task", "/do");
    }
    assert(issue_views(report.issues@) =~= document_issues(def@) + issue_if(
        def.tasks.entries@.len() == 0,
        "do.empty"@,
        "workflow must define at least one task"@,
        "/do"@,
    ));
    validate_task_scope(&mut report, &def.tasks, "/do");
    report
}

/// Whether a list has a task of a name.
fn knows_task(tasks: &TaskList, name: &str) -> (r: bool)
    ensures
        r == has_task(tasks@, name@),
{
    let mut i: usize = 0;
    while i < tasks.entries.len()
        invariant
            i <= tasks.entries.len(),
            forall|j: int|
                0 <= j < i ==> (#[trigger] tasks@[j] matches Some(e) ==> e.name != name@),
        decreases tasks.entries.len() - i,
    {
        assert(tasks@[i as int] == entry_model(tasks.entries@[i as int]));
        match &tasks.entries[i] {
            Some(e) => {
                if text_eq(e.name.as_str(), name) {
                    assert(tasks@[i as int] is Some);
                    return true;
                }
            },
            None => {},
        }
        i += 1;
    }
    false
}

/// Adds the violations in a list of tasks.
fn validate_task_scope(report: &mut ValidationReport, tasks: &TaskList, pointer: &str)
    ensures
        issue_views(final(report).issues@) == issue_views(old(report).issues@) + scope_issues(
            tasks@,
            pointer@,
        ),
    decreases tasks, 1nat,
{
    let ghost before = issue_views(report.issues@);
    let ghost all = tasks@;
    let mut i: usize = 0;
    assert(before + entries_issues(all.take(0), all, pointer@) =~= before);
    while i < tasks.entries.len()
        invariant
            i <= tasks.entries.len(),
            all == tasks@,
            all.len() == tasks.entries.len(),
            issue_views(report.issues@) == before + entries_issues(
                all.take(i as int),
                all,
                pointer@,
            ),
        decreases tasks.entries.len() - i,
    {
        let ghost now = issue_views(report.issues@);
        assert(all[i as int] == entry_model(tasks.entries@[i as int]));
        match &tasks.entries[i] {
            Some(e) => {
                let here = concat3(pointer, "/", e.name.as_str());
                validate_flow(report, tasks, &e.task.flow, here.as_str());
                validate_body(report, &e.task.body, here.as_str());
            },
            None => {},
        }
        proof {
            let next = all.take(i + 1);
            assert(next.drop_last() =~= all.take(i as int));
            assert(next.last() == all[i as int]);
            assert(issue_views(report.issues@) =~= now + entry_issues(
                all[i as int],
                all,
                pointer@,
            ));
            assert(before + entries_issues(next, all, pointer@) =~= now + entry_issues(
                all[i as int],
                all,
                pointer@,
            ));
        }
        i += 1;
    }
    assert(all.take(tasks.entries.len() as int) =~= all);
}

/// Adds the violations of a flow directive.
fn validate_flow(
    report: &mut ValidationReport,
    tasks: &TaskList,
    flow: &Option<String>,
    pointer: &str,
)
    ensures
        issue_views(final(report).issues@) == issue_views(old(report).issues@) + flow_issues(
            tasks@,
            opt_view(*flow),
            pointer@,
        ),
{
    let ghost before = issue_views(report.issues@);
    match flow {
        Some(f) => {
            if !text_eq(f.as_str(), "continue") && !text_eq(f.as_str(), "exit") && !text_eq(
                f.as_str(),
                "end",
            ) && !knows_task(tasks, f.as_str()) {
                let message = concat3(
                    "flow directive `",
                    f.as_str(),
                    "` does not match any task in scope",
                );
                let instance = concat2(pointer, "/then");
                report.note("flow.unknown-target", message.as_str(), instance.as_str());
            }
        },
        None => {},
    }
    assert(issue_views(report.issues@) =~= before + flow_issues(tasks@, opt_view(*flow), pointer@));
}

/// Adds the violations inside a task.
fn validate_body(report: &mut ValidationReport, body: &TaskBody, pointer: &str)
    ensures
        issue_views(final(report).issues@) == issue_views(old(report).issues@) + body_issues(
            body@,
            pointer@,
        ),
    decreases body, 0nat,
{
    let ghost before = issue_views(report.issues@);
    match body {
        TaskBody::Simple => {},
        TaskBody::Do(tasks) => {
            let inner = concat2(pointer, "/do");
            validate_task_scope(report, tasks, inner.as_str());
        },
        TaskBody::For { collection, tasks } => {
            if collection.as_str().is_empty() {
                let instance = concat2(pointer, "/for/in");
                report.note(
                    "for.in.required",
                    "for loop must define an `in` collection",
                    instance.as_str(),
                );
            }
            let inner = concat2(pointer, "/do");
            validate_task_scope(report, tasks, inner.as_str());
        },
        TaskBody::Fork(tasks) => {
            let inner = concat2(pointer, "/fork/branches");
            validate_task_scope(report, tasks, inner.as_str());
        },
        TaskBody::Try { tasks, handler } => {
            let inner = concat2(pointer, "/try");
            validate_task_scope(report, tasks, inner.as_str());
            match handler {
                Some(h) => {
                    let inner = concat2(pointer, "/catch/do");
                    validate_task_scope(report, h, inner.as_str());
                },
                None => {},
            }
        },
        TaskBody::Switch(cases) => validate_switch(report, cases, pointer),
    }
    assert(issue_views(report.issues@) =~= before + body_issues(body@, pointer@));
}

/// Adds the violations of a switch.
fn validate_switch(report: &mut ValidationReport, cases: &Vec<Option<SwitchCase>>, pointer: &str)
    ensures
        issue_views(final(report).issues@) == issue_views(old(report).issues@) + switch_issues(
            case_models(cases@),
            pointer@,
        ),
{
    let ghost before = issue_views(report.issues@);
    let ghost m = case_models(cases@);
    if cases.len() == 0 {
        report.note("switch.empty", "switch must define at least one case", pointer);
        assert(issue_views(report.issues@) =~= before + switch_issues(m, pointer@));
        return ;
    }
    let mut default_seen = false;
    let mut i: usize = 0;
    assert(before + cases_issues(m.take(0), pointer@) =~= before);
    while i < cases.len()
        invariant
            i <= cases.len(),
            m == case_models(cases@),
            default_seen == has_default(m.take(i as int)),
            issue_views(report.issues@) == before + cases_issues(m.take(i as int), pointer@),
        decreases cases.len() - i,
    {
        let ghost now = issue_views(report.issues@);
        let ghost head = m.take(i as int);
        let ghost next = m.take(i + 1);
        proof {
            assert(next.drop_last() =~= head);
            assert(next.last() == m[i as int]);
            if has_default(head) {
                let k = choose|k: int| 0 <= k < head.len() && is_default(#[trigger] head[k]);
                assert(is_default(next[k]));
            }
            if is_default(m[i as int]) {
                assert(is_default(next[i as int]));
            }
            if has_default(next) {
                let k = choose|k: int| 0 <= k < next.len() && is_default(#[trigger] next[k]);
                if k < i {
                    assert(is_default(head[k]));
                }
            }
        }
        assert(m[i as int] == case_model(cases@[i as int]));
        match &cases[i] {
            Some(c) => {
                let here = concat3(pointer, "/", c.name.as_str());
                if c.when.is_none() {
                    if default_seen {
                        report.note(
                            "switch.multiple-default",
                            "switch may only have one default case",
                            here.as_str(),
                        );
                    }
                }
                if c.flow.is_none() {
                    report.note(
                        "switch.then.required",
                        "switch case must define a `then` directive",
                        here.as_str(),
                    );
                }
                assert(issue_views(report.issues@) =~= now + case_issues(
                    m[i as int].unwrap(),
                    default_seen,
                    pointer@,
                ));
                if c.when.is_none() {
                    default_seen = true;
                }
            },
            None => {
                assert(now + Seq::<Issue>::empty() =~= now);
            },
        }
        assert(before + cases_issues(next, pointer@) =~= issue_views(report.issues@));
        i += 1;
    }
    assert(m.take(cases.len() as int) =~= m);
}

/// A definition without a name, a version, a supported language version or any
/// task is never valid.
pub proof fn law_incomplete_is_invalid(def: DefinitionModel)
    requires
        def.name.len() == 0 || def.version.len() == 0 || def.dsl.len() == 0
            || !"1."@.is_prefix_of(def.dsl) || def.tasks.len() == 0,
    ensures
        definition_issues(def).len() > 0,
{
}

/// A flow directive that names a task of its list, or goes on, out or to the end,
/// is no violation, and any other is one.
pub proof fn law_flow_targets(
    entries: Seq<Option<EntryModel>>,
    flow: Seq<char>,
    pointer: Seq<char>,
)
    ensures
        (flow_issues(entries, Some(flow), pointer).len() == 0) == flow_leads(entries, flow),
{
}

/// A switch is valid only with at least one case, at most one default case, and a
/// directive in every case.
pub proof fn law_valid_switch(cases: Seq<Option<CaseModel>>, pointer: Seq<char>)
    requires
        switch_issues(cases, pointer).len() == 0,
    ensures
        cases.len() > 0,
        forall|i: int|
            0 <= i < cases.len() ==> (#[trigger] cases[i] matches Some(c) ==> c.flow is Some),
        forall|i: int, j: int|
            0 <= i < j < cases.len() ==> !(is_default(#[trigger] cases[i]) && is_default(
                #[trigger] cases[j],
            )),
{
    lemma_valid_cases(cases, pointer);
}

/// Cases without issues have what the rules ask.
proof fn lemma_valid_cases(cases: Seq<Option<CaseModel>>, pointer: Seq<char>)
    requires
        cases_issues(cases, pointer).len() == 0,
    ensures
        forall|i: int|
            0 <= i < cases.len() ==> (#[trigger] cases[i] matches Some(c) ==> c.flow is Some),
        forall|i: int, j: int|
            0 <= i < j < cases.len() ==> !(is_default(#[trigger] cases[i]) && is_default(
                #[trigger] cases[j],
            )),
    decreases cases.len(),
{
    if cases.len() > 0 {
        let head = cases.drop_last();
        lemma_valid_cases(head, pointer);
        let n = cases.len() - 1;
        assert forall|i: int| 0 <= i < cases.len() implies (#[trigger] cases[i] matches Some(c)
            ==> c.flow is Some) by {
            if i < n {
                assert(cases[i] == head[i]);
            }
        }
        assert forall|i: int, j: int| 0 <= i < j < cases.len() implies !(is_default(
            #[trigger] cases[i],
        ) && is_default(#[trigger] cases[j])) by {
            assert(cases[i] == head[i]);
            if j < n {
                assert(cases[j] == head[j]);
            } else {
                if is_default(cases[i]) {
                    assert(has_default(head));
                }
            }
        }
    }
}

// ---------------------------------------------------------------------------
// What the rules are for
// ---------------------------------------------------------------------------

/// A directive that goes on, out or to the end is no violation in any list. Any
/// other directive is none exactly where an entry of the list has that name, and
/// where it is one, it is reported with its name at its place.
pub proof fn law_flow_directives(
    entries: Seq<Option<EntryModel>>,
    flow: Seq<char>,
    pointer: Seq<char>,
)
    ensures
        flow_issues(entries, None, pointer).len() == 0,
        flow_issues(entries, Some("continue"@), pointer).len() == 0,
        flow_issues(entries, Some("exit"@), pointer).len() == 0,
        flow_issues(entries, Some("end"@), pointer).len() == 0,
        flow != "continue"@ && flow != "exit"@ && flow != "end"@ ==> {
            let found = exists|i: int|
                0 <= i < entries.len() && (#[trigger] entries[i]) is Some
                    && entries[i].unwrap().name == flow;
            flow_issues(entries, Some(flow), pointer) == if found {
                Seq::empty()
            } else {
                seq![
                    Issue {
                        code: "flow.unknown-target"@,
                        message: "flow directive `"@ + flow
                            + "` does not match any task in scope"@,
                        instance: Some(pointer + "/then"@),
                    },
                ]
            }
        },
{
    if has_task(entries, flow) {
        let i = choose|i: int|
            0 <= i < entries.len() && (#[trigger] entries[i] matches Some(e) ==> e.name == flow)
                && entries[i] is Some;
        assert(entries[i] is Some && entries[i].unwrap().name == flow);
    }
}

/// Whether a directive of a task leads somewhere, told without the rules: it is
/// absent, one of three words, or the name of an entry.
pub open spec fn leads_somewhere(
    entries: Seq<Option<EntryModel>>,
    flow: Option<Seq<char>>,
) -> bool {
    flow is Some ==> {
        ||| flow.unwrap() == "continue"@
        ||| flow.unwrap() == "exit"@
        ||| flow.unwrap() == "end"@
        ||| exists|i: int|
            0 <= i < entries.len() && (#[trigger] entries[i]) is Some && entries[i].unwrap().name
                == flow.unwrap()
    }
}

/// The violations of some entries are those of each, so there are none exactly
/// where no entry has one.
proof fn lemma_entries_issues(
    entries: Seq<Option<EntryModel>>,
    all: Seq<Option<EntryModel>>,
    pointer: Seq<char>,
)
    ensures
        entries_issues(entries, all, pointer).len() == 0 <==> forall|i: int|
            0 <= i < entries.len() ==> entry_issues(
                #[trigger] entries[i],
                all,
                pointer,
            ).len() == 0,
        forall|i: int, x: Issue|
            0 <= i < entries.len() && #[trigger] entry_issues(
                entries[i],
                all,
                pointer,
            ).contains(x) ==> entries_issues(entries, all, pointer).contains(x),
    decreases entries.len(),
{
    if entries.len() > 0 {
        let head = entries.drop_last();
        let n = entries.len() - 1;
        lemma_entries_issues(head, all, pointer);
        let a = entries_issues(head, all, pointer);
        let b = entry_issues(entries.last(), all, pointer);
        let out = entries_issues(entries, all, pointer);
        assert(out == a + b);
        assert(entries[n] == entries.last());
        assert forall|i: int| 0 <= i < head.len() implies #[trigger] head[i] == entries[i] by {}
        if out.len() == 0 {
            assert forall|i: int| 0 <= i < entries.len() implies entry_issues(
                #[trigger] entries[i],
                all,
                pointer,
            ).len() == 0 by {
                if i < n {
                    assert(entry_issues(head[i], all, pointer).len() == 0);
                }
            }
        }
        assert forall|i: int, x: Issue|
            0 <= i < entries.len() && #[trigger] entry_issues(
                entries[i],
                all,
                pointer,
            ).contains(x) implies out.contains(x) by {
            if i < n {
                assert(entry_issues(head[i], all, pointer).contains(x));
                lemma_in_left(a, b, x);
            } else {
                lemma_in_right(a, b, x);
            }
        }
    }
}

/// What is in the first of two lists is in both together.
proof fn lemma_in_left(a: Seq<Issue>, b: Seq<Issue>, x: Issue)
    requires
        a.contains(x),
    ensures
        (a + b).contains(x),
{
    let k = choose|k: int| 0 <= k < a.len() && a[k] == x;
    assert((a + b)[k] == x);
}

/// What is in the second of two lists is in both together.
proof fn lemma_in_right(a: Seq<Issue>, b: Seq<Issue>, x: Issue)
    requires
        b.contains(x),
    ensures
        (a + b).contains(x),
{
    let k = choose|k: int| 0 <= k < b.len() && b[k] == x;
    assert((a + b)[a.len() + k] == x);
}

/// A list of tasks is valid exactly where the directive of every task leads
/// somewhere in the list and what every task holds is valid.
pub proof fn law_valid_scope(tasks: Seq<Option<EntryModel>>, pointer: Seq<char>)
    ensures
        scope_issues(tasks, pointer).len() == 0 <==> forall|i: int|
            0 <= i < tasks.len() ==> ((#[trigger] tasks[i]) is Some ==> {
                let e = tasks[i].unwrap();
                leads_somewhere(tasks, e.task.flow) && body_issues(
                    e.task.body,
                    pointer + "/"@ + e.name,
                ).len() == 0
            }),
{
    lemma_entries_issues(tasks, tasks, pointer);
    assert forall|i: int| 0 <= i < tasks.len() implies (entry_issues(
        #[trigger] tasks[i],
        tasks,
        pointer,
    ).len() == 0 <==> (tasks[i] is Some ==> {
        let e = tasks[i].unwrap();
        leads_somewhere(tasks, e.task.flow) && body_issues(
            e.task.body,
            pointer + "/"@ + e.name,
        ).len() == 0
    })) by {
        if tasks[i] is Some {
            let e = tasks[i].unwrap();
            if e.task.flow is Some {
                law_flow_directives(tasks, e.task.flow.unwrap(), pointer + "/"@ + e.name);
            }
        }
    }
}

/// What a task holds is valid exactly where each list of tasks in it is, a loop has
/// a collection, and a switch has cases, each with a directive, and at most one
/// case without a condition.
pub proof fn law_valid_body(body: BodyModel, pointer: Seq<char>)
    ensures
        body is Simple ==> body_issues(body, pointer).len() == 0,
        body matches BodyModel::Do(tasks) ==> (body_issues(body, pointer).len() == 0
            <==> scope_issues(tasks, pointer + "/do"@).len() == 0),
        body matches BodyModel::For { collection, tasks } ==> (body_issues(body, pointer).len()
            == 0 <==> collection.len() > 0 && scope_issues(tasks, pointer + "/do"@).len() == 0),
        body matches BodyModel::Fork(tasks) ==> (body_issues(body, pointer).len() == 0
            <==> scope_issues(tasks, pointer + "/fork/branches"@).len() == 0),
        body matches BodyModel::Try { tasks, handler } ==> (body_issues(body, pointer).len()
            == 0 <==> scope_issues(tasks, pointer + "/try"@).len() == 0 && (handler is Some
            ==> scope_issues(handler.unwrap(), pointer + "/catch/do"@).len() == 0)),
        body matches BodyModel::Switch(cases) ==> (body_issues(body, pointer).len() == 0 <==> {
            &&& cases.len() > 0
            &&& forall|i: int|
                0 <= i < cases.len() ==> ((#[trigger] cases[i]) is Some
                    ==> cases[i].unwrap().flow is Some)
            &&& forall|i: int, j: int|
                0 <= i < j < cases.len() && (#[trigger] cases[i]) is Some && (
                #[trigger] cases[j]) is Some ==> cases[i].unwrap().when is Some
                    || cases[j].unwrap().when is Some
        }),
{
    match body {
        BodyModel::Switch(cases) => {
            if cases.len() > 0 {
                lemma_sound_cases(cases, pointer);
            }
        },
        _ => {},
    }
}

/// Cases are without violations exactly where each has a directive and at most one
/// is without a condition.
proof fn lemma_sound_cases(cases: Seq<Option<CaseModel>>, pointer: Seq<char>)
    ensures
        cases_issues(cases, pointer).len() == 0 <==> {
            &&& forall|i: int|
                0 <= i < cases.len() ==> ((#[trigger] cases[i]) is Some
                    ==> cases[i].unwrap().flow is Some)
            &&& forall|i: int, j: int|
                0 <= i < j < cases.len() && (#[trigger] cases[i]) is Some && (
                #[trigger] cases[j]) is Some ==> cases[i].unwrap().when is Some
                    || cases[j].unwrap().when is Some
        },
    decreases cases.len(),
{
    if cases.len() > 0 {
        let head = cases.drop_last();
        let n = cases.len() - 1;
        lemma_sound_cases(head, pointer);
        assert forall|i: int| 0 <= i < n implies #[trigger] head[i] == cases[i] by {}
        assert(cases[n] == cases.last());
        if cases_issues(cases, pointer).len() == 0 {
            assert(cases_issues(head, pointer).len() == 0);
            assert forall|i: int, j: int|
                0 <= i < j < cases.len() && (#[trigger] cases[i]) is Some && (
                #[trigger] cases[j]) is Some implies cases[i].unwrap().when is Some
                || cases[j].unwrap().when is Some by {
                assert(head[i] == cases[i]);
                if j < n {
                    assert(head[j] == cases[j]);
                } else if cases[i].unwrap().when is None {
                    assert(is_default(head[i]));
                }
            }
            assert forall|i: int|
                0 <= i < cases.len() && (#[trigger] cases[i]) is Some implies cases[i].unwrap().flow
                is Some by {
                if i < n {
                    assert(head[i] == cases[i]);
                }
            }
        } else {
            if has_default(head) {
                let k = choose|k: int| 0 <= k < head.len() && is_default(#[trigger] head[k]);
                assert(cases[k] is Some && cases[k].unwrap().when is None);
                assert(cases[n] is Some ==> cases[n] == cases.last());
            }
            if cases_issues(head, pointer).len() != 0 {
                let a = cases_issues(head, pointer);
                if forall|i: int|
                    0 <= i < head.len() ==> ((#[trigger] head[i]) is Some
                        ==> head[i].unwrap().flow is Some) {
                    let (i, j) = choose|i: int, j: int|
                        0 <= i < j < head.len() && (#[trigger] head[i]) is Some && (
                        #[trigger] head[j]) is Some && head[i].unwrap().when is None
                            && head[j].unwrap().when is None;
                    assert(cases[i] is Some && cases[j] is Some);
                } else {
                    let i = choose|i: int|
                        0 <= i < head.len() && (#[trigger] head[i]) is Some
                            && head[i].unwrap().flow is None;
                    assert(cases[i] is Some);
                }
            }
        }
    }
}

/// A definition is valid exactly where it has a name, a version, a language version
/// that starts with `1.`, at least one task, and a valid list of tasks.
pub proof fn law_valid_definition(def: DefinitionModel)
    ensures
        definition_issues(def).len() == 0 <==> {
            &&& def.name.len() > 0
            &&& def.version.len() > 0
            &&& def.dsl.len() >= 2 && def.dsl[0] == '1' && def.dsl[1] == '.'
            &&& def.tasks.len() > 0
            &&& forall|i: int|
                0 <= i < def.tasks.len() ==> ((#[trigger] def.tasks[i]) is Some ==> {
                    let e = def.tasks[i].unwrap();
                    leads_somewhere(def.tasks, e.task.flow) && body_issues(
                        e.task.body,
                        "/do/"@ + e.name,
                    ).len() == 0
                })
        },
{
    reveal_strlit("1.");
    reveal_strlit("/do");
    reveal_strlit("/");
    reveal_strlit("/do/");
    assert("/do"@ + "/"@ =~= "/do/"@);
    law_valid_scope(def.tasks, "/do"@);
    let one = "1."@;
    if def.dsl.len() >= 2 && def.dsl[0] == '1' && def.dsl[1] == '.' {
        assert(def.dsl.subrange(0, 2) =~= one);
    }
    if one.is_prefix_of(def.dsl) {
        assert(def.dsl.subrange(0, 2)[0] == def.dsl[0]);
        assert(def.dsl.subrange(0, 2)[1] == def.dsl[1]);
    }
}

/// Each violation of the document part, and a definition without tasks, is reported
/// under its code at its place.
pub proof fn law_document_reports(def: DefinitionModel)
    ensures
        def.name.len() == 0 ==> definition_issues(def).contains(
            (Issue {
                code: "document.name.required"@,
                message: "workflow name must not be empty"@,
                instance: Some("/document/name"@),
            }),
        ),
        def.version.len() == 0 ==> definition_issues(def).contains(
            (Issue {
                code: "document.version.required"@,
                message: "workflow version must not be empty"@,
                instance: Some("/document/version"@),
            }),
        ),
        def.dsl.len() == 0 ==> definition_issues(def).contains(
            (Issue {
                code: "document.dsl.required"@,
                message: "DSL version must not be empty"@,
                instance: Some("/document/dsl"@),
            }),
        ),
        def.dsl.len() > 0 && !"1."@.is_prefix_of(def.dsl) ==> definition_issues(def).contains(
            (Issue {
                code: "document.dsl.unsupported"@,
                message: "unsupported DSL version `"@ + def.dsl + "`"@,
                instance: Some("/document/dsl"@),
            }),
        ),
        def.tasks.len() == 0 ==> definition_issues(def).contains(
            (Issue {
                code: "do.empty"@,
                message: "workflow must define at least one task"@,
                instance: Some("/do"@),
            }),
        ),
{
    let a = issue_if(
        def.name.len() == 0,
        "document.name.required"@,
        "workflow name must not be empty"@,
        "/document/name"@,
    );
    let b = issue_if(
        def.version.len() == 0,
        "document.version.required"@,
        "workflow version must not be empty"@,
        "/document/version"@,
    );
    let c = if def.dsl.len() == 0 {
        seq![
            issue("document.dsl.required"@, "DSL version must not be empty"@, "/document/dsl"@),
        ]
    } else {
        issue_if(
            !"1."@.is_prefix_of(def.dsl),
            "document.dsl.unsupported"@,
            "unsupported DSL version `"@ + def.dsl + "`"@,
            "/document/dsl"@,
        )
    };
    let d = issue_if(
        def.tasks.len() == 0,
        "do.empty"@,
        "workflow must define at least one task"@,
        "/do"@,
    );
    let e = scope_issues(def.tasks, "/do"@);
    let out = definition_issues(def);
    assert(out == a + b + c + d + e);
    if a.len() > 0 {
        assert(out[0] == a[0]);
    }
    if b.len() > 0 {
        assert(out[a.len() as int] == b[0]);
    }
    if c.len() > 0 {
        assert(out[(a.len() + b.len()) as int] == c[0]);
    }
    if d.len() > 0 {
        assert(out[(a.len() + b.len() + c.len()) as int] == d[0]);
    }
}

/// A directive that leads nowhere is reported in the definition that holds it, at
/// its task.
pub proof fn law_unknown_target_is_reported(def: DefinitionModel, i: int)
    requires
        0 <= i < def.tasks.len(),
        def.tasks[i] is Some,
        !leads_somewhere(def.tasks, def.tasks[i].unwrap().task.flow),
    ensures
        definition_issues(def).contains(
            (Issue {
                code: "flow.unknown-target"@,
                message: "flow directive `"@ + def.tasks[i].unwrap().task.flow.unwrap()
                    + "` does not match any task in scope"@,
                instance: Some("/do"@ + "/"@ + def.tasks[i].unwrap().name + "/then"@),
            }),
        ),
{
    let e = def.tasks[i].unwrap();
    let here = "/do"@ + "/"@ + e.name;
    let flow = e.task.flow.unwrap();
    law_flow_directives(def.tasks, flow, here);
    let own = flow_issues(def.tasks, e.task.flow, here);
    let x = own[0];
    assert(own.contains(x));
    lemma_in_left(own, body_issues(e.task.body, here), x);
    lemma_entries_issues(def.tasks, def.tasks, "/do"@);
    assert(entry_issues(def.tasks[i], def.tasks, "/do"@).contains(x));
    let before = document_issues(def) + issue_if(
        def.tasks.len() == 0,
        "do.empty"@,
        "workflow must define at least one task"@,
        "/do"@,
    );
    lemma_in_right(before, scope_issues(def.tasks, "/do"@), x);
}

/// A loop without a collection, a switch without cases, a case without a directive
/// and a second case without a condition are each reported at their place.
pub proof fn law_body_reports(body: BodyModel, pointer: Seq<char>)
    ensures
        body matches BodyModel::For { collection, tasks } ==> collection.len() == 0
            ==> body_issues(body, pointer).contains(
            (Issue {
                code: "for.in.required"@,
                message: "for loop must define an `in` collection"@,
                instance: Some(pointer + "/for/in"@),
            }),
        ),
        body matches BodyModel::Switch(cases) ==> cases.len() == 0 ==> body_issues(body, pointer)
            == seq![
            Issue {
                code: "switch.empty"@,
                message: "switch must define at least one case"@,
                instance: Some(pointer),
            },
        ],
        body matches BodyModel::Switch(cases) ==> forall|i: int|
            0 <= i < cases.len() && (#[trigger] cases[i]) is Some && cases[i].unwrap().flow is None
                ==> body_issues(body, pointer).contains(
                (Issue {
                    code: "switch.then.required"@,
                    message: "switch case must define a `then` directive"@,
                    instance: Some(pointer + "/"@ + cases[i].unwrap().name),
                }),
            ),
        body matches BodyModel::Switch(cases) ==> forall|i: int, j: int|
            0 <= i < j < cases.len() && (#[trigger] cases[i]) is Some && (
            #[trigger] cases[j]) is Some && cases[i].unwrap().when is None
                && cases[j].unwrap().when is None ==> body_issues(body, pointer).contains(
                (Issue {
                    code: "switch.multiple-default"@,
                    message: "switch may only have one default case"@,
                    instance: Some(pointer + "/"@ + cases[j].unwrap().name),
                }),
            ),
{
    match body {
        BodyModel::For { collection, tasks } => {
            if collection.len() == 0 {
                assert(body_issues(body, pointer)[0].code == "for.in.required"@);
            }
        },
        BodyModel::Switch(cases) => {
            lemma_case_reports(cases, pointer);
        },
        _ => {},
    }
}

/// A case without a directive and a second case without a condition are reported.
proof fn lemma_case_reports(cases: Seq<Option<CaseModel>>, pointer: Seq<char>)
    ensures
        forall|i: int|
            0 <= i < cases.len() && (#[trigger] cases[i]) is Some && cases[i].unwrap().flow is None
                ==> cases_issues(cases, pointer).contains(
                issue(
                    "switch.then.required"@,
                    "switch case must define a `then` directive"@,
                    pointer + "/"@ + cases[i].unwrap().name,
                ),
            ),
        forall|i: int, j: int|
            0 <= i < j < cases.len() && (#[trigger] cases[i]) is Some && (
            #[trigger] cases[j]) is Some && cases[i].unwrap().when is None
                && cases[j].unwrap().when is None ==> cases_issues(cases, pointer).contains(
                issue(
                    "switch.multiple-default"@,
                    "switch may only have one default case"@,
                    pointer + "/"@ + cases[j].unwrap().name,
                ),
            ),
    decreases cases.len(),
{
    if cases.len() > 0 {
        let head = cases.drop_last();
        let n = cases.len() - 1;
        lemma_case_reports(head, pointer);
        let a = cases_issues(head, pointer);
        let b = match cases.last() {
            Some(c) => case_issues(c, has_default(head), pointer),
            None => Seq::empty(),
        };
        assert(cases_issues(cases, pointer) == a + b);
        assert forall|i: int|
            0 <= i < cases.len() && (#[trigger] cases[i]) is Some && cases[i].unwrap().flow
                is None implies cases_issues(cases, pointer).contains(
            issue(
                "switch.then.required"@,
                "switch case must define a `then` directive"@,
                pointer + "/"@ + cases[i].unwrap().name,
            ),
        ) by {
            let x = issue(
                "switch.then.required"@,
                "switch case must define a `then` directive"@,
                pointer + "/"@ + cases[i].unwrap().name,
            );
            if i < n {
                assert(head[i] == cases[i]);
                lemma_in_left(a, b, x);
            } else {
                assert(b.last() == x);
                lemma_in_right(a, b, x);
            }
        }
        assert forall|i: int, j: int|
            0 <= i < j < cases.len() && (#[trigger] cases[i]) is Some && (
            #[trigger] cases[j]) is Some && cases[i].unwrap().when is None
                && cases[j].unwrap().when is None implies cases_issues(cases, pointer).contains(
            issue(
                "switch.multiple-default"@,
                "switch may only have one default case"@,
                pointer + "/"@ + cases[j].unwrap().name,
            ),
        ) by {
            let x = issue(
                "switch.multiple-default"@,
                "switch may only have one default case"@,
                pointer + "/"@ + cases[j].unwrap().name,
            );
            assert(head[i] == cases[i]);
            if j < n {
                assert(head[j] == cases[j]);
                lemma_in_left(a, b, x);
            } else {
                assert(is_default(head[i]));
                assert(b[0] == x);
                lemma_in_right(a, b, x);
            }
        }
    }
}

} // verus!
