//! The conformance test kit: feature files, scenarios and their verdicts.
use crate::document::{held, read_yaml, yaml_value};
use crate::error::ErrorKind;
use crate::expressions::lexer::{debug_notation, debug_string};
use crate::expressions::operators::{equal, is_equal};
use crate::json::{Json, Value};
use crate::model::{decode_workflow, definition_of, model_definition, model_json};
use crate::text::{
    concat2, concat3, concat5, contains, cut_at, decimal, first_word, first_word_of, join, joined,
    lines, lines_of, occurs, opt_view, parse_usize, parsed_usize, split, split_once, split_parts,
    starts_with, strip_prefix, strip_suffix, stripped_of, text_eq, trim, trim_end, trim_matches,
    trim_start, trimmed, trimmed_end, trimmed_start, usize_text, views, without_prefix,
    without_suffix,
};
use crate::validate::{Definition, Issue, definition_issues, issue_views, validate};
use crate::value::{json_text, lookup, option_json, write_json};
use vstd::prelude::*;

verus! {

broadcast use crate::json::group_json;

// ---------------------------------------------------------------------------
// Features
// ---------------------------------------------------------------------------

/// A step of a scenario.
#[derive(Debug)]
pub struct Step {
    /// The keyword of the step.
    pub keyword: String,
    /// The text of the step.
    pub text: String,
    /// The document under the step, if there is one.
    pub doc_string: Option<String>,
}

/// A scenario.
#[derive(Debug)]
pub struct Scenario {
    /// The name of the scenario.
    pub name: String,
    /// The steps.
    pub steps: Vec<Step>,
}

/// A feature.
#[derive(Debug)]
pub struct Feature {
    /// The name of the feature.
    pub name: String,
    /// The file of the feature.
    pub file: String,
    /// The scenarios.
    pub scenarios: Vec<Scenario>,
}

/// The model of a [`Step`].
pub ghost struct StepModel {
    pub keyword: Seq<char>,
    pub text: Seq<char>,
    pub doc_string: Option<Seq<char>>,
}

/// The model of a [`Scenario`].
pub ghost struct ScenarioModel {
    pub name: Seq<char>,
    pub steps: Seq<StepModel>,
}

impl View for Step {
    type V = StepModel;

    open spec fn view(&self) -> StepModel {
        StepModel {
            keyword: self.keyword@,
            text: self.text@,
            doc_string: opt_view(self.doc_string),
        }
    }
}

/// The models of a list of steps.
pub open spec fn step_views(steps: Seq<Step>) -> Seq<StepModel> {
    steps.map_values(|s: Step| s@)
}

impl View for Scenario {
    type V = ScenarioModel;

    open spec fn view(&self) -> ScenarioModel {
        ScenarioModel { name: self.name@, steps: step_views(self.steps@) }
    }
}

/// The models of a list of scenarios.
pub open spec fn scenario_views(scenarios: Seq<Scenario>) -> Seq<ScenarioModel> {
    scenarios.map_values(|s: Scenario| s@)
}

/// What was read of a feature file so far: the name, the finished scenarios, the
/// current scenario, the current step, and the document that is being read.
pub ghost struct Reading {
    pub name: Seq<char>,
    pub scenarios: Seq<ScenarioModel>,
    pub scenario: Option<ScenarioModel>,
    pub step: Option<StepModel>,
    pub doc: Option<Seq<char>>,
}

/// Nothing read yet.
pub open spec fn unread() -> Reading {
    Reading {
        name: Seq::empty(),
        scenarios: Seq::empty(),
        scenario: None,
        step: None,
        doc: None,
    }
}

/// The current step becomes part of the current scenario. Without a scenario it
/// is dropped.
pub open spec fn step_closed(r: Reading) -> Reading {
    Reading {
        scenario: match (r.scenario, r.step) {
            (Some(sc), Some(st)) => Some((ScenarioModel { steps: sc.steps.push(st), ..sc })),
            _ => r.scenario,
        },
        step: None,
        ..r
    }
}

/// The current scenario becomes one of the finished ones.
pub open spec fn scenario_closed(r: Reading) -> Reading {
    let r = step_closed(r);
    Reading {
        scenarios: match r.scenario {
            Some(sc) => r.scenarios.push(sc),
            None => r.scenarios,
        },
        scenario: None,
        ..r
    }
}

/// The text behind a label, without white space around it.
pub open spec fn labelled(s: Seq<char>, label: Seq<char>) -> Seq<char> {
    trimmed(s.skip(label.len() as int))
}

/// The keyword and the text of a step.
pub open spec fn step_parts(s: Seq<char>) -> (Seq<char>, Seq<char>) {
    if "Given "@.is_prefix_of(s) {
        ("Given"@, labelled(s, "Given "@))
    } else if "When "@.is_prefix_of(s) {
        ("When"@, labelled(s, "When "@))
    } else if "Then "@.is_prefix_of(s) {
        ("Then"@, labelled(s, "Then "@))
    } else if "And "@.is_prefix_of(s) {
        ("And"@, labelled(s, "And "@))
    } else if "But "@.is_prefix_of(s) {
        ("But"@, labelled(s, "But "@))
    } else {
        ("Step"@, s)
    }
}

/// Reading one line. Inside a document every line belongs to it, up to the line
/// that starts with three quotation marks. Outside, a line names the feature,
/// starts a scenario, starts a document, is blank or a comment, or is a step.
pub open spec fn line_read(r: Reading, raw: Seq<char>) -> Reading {
    let line = trimmed_end(raw);
    let t = trimmed(line);
    match r.doc {
        Some(doc) => if "\"\"\""@.is_prefix_of(trimmed_start(line)) {
            Reading {
                doc: None,
                step: match r.step {
                    Some(st) => Some((StepModel { doc_string: Some(doc), ..st })),
                    None => None,
                },
                ..r
            }
        } else {
            Reading { doc: Some((doc + line).push('\n')), ..r }
        },
        None => if "Feature:"@.is_prefix_of(t) {
            Reading { name: labelled(t, "Feature:"@), ..r }
        } else if "Scenario:"@.is_prefix_of(t) {
            Reading {
                scenario: Some(
                    (ScenarioModel { name: labelled(t, "Scenario:"@), steps: Seq::empty() }),
                ),
                ..scenario_closed(r)
            }
        } else if "\"\"\""@.is_prefix_of(t) {
            Reading { doc: Some(Seq::empty()), ..r }
        } else if t.len() == 0 || "#"@.is_prefix_of(t) {
            r
        } else {
            Reading {
                step: Some(
                    (StepModel {
                        keyword: step_parts(t).0,
                        text: step_parts(t).1,
                        doc_string: None,
                    }),
                ),
                ..step_closed(r)
            }
        },
    }
}

/// Reading some lines.
pub open spec fn lines_read(lines: Seq<Seq<char>>) -> Reading
    decreases lines.len(),
{
    if lines.len() == 0 {
        unread()
    } else {
        line_read(lines_read(lines.drop_last()), lines.last())
    }
}

/// What a feature file holds.
pub open spec fn feature_read(text: Seq<char>) -> Reading {
    scenario_closed(lines_read(lines_of(text)))
}

/// The state of reading a feature file.
struct Reader {
    name: String,
    scenarios: Vec<Scenario>,
    scenario: Option<Scenario>,
    step: Option<Step>,
    doc: Option<String>,
}

/// The model of an open scenario.
spec fn scenario_view(s: Option<Scenario>) -> Option<ScenarioModel> {
    match s {
        Some(x) => Some(x@),
        None => None,
    }
}

/// The model of an open step.
spec fn step_view(s: Option<Step>) -> Option<StepModel> {
    match s {
        Some(x) => Some(x@),
        None => None,
    }
}

impl Reader {
    /// The model of the reader.
    spec fn model(self) -> Reading {
        Reading {
            name: self.name@,
            scenarios: scenario_views(self.scenarios@),
            scenario: scenario_view(self.scenario),
            step: step_view(self.step),
            doc: opt_view(self.doc),
        }
    }

    fn new() -> (r: Self)
        ensures
            r.model() == unread(),
    {
        let r = Reader {
            name: String::new(),
            scenarios: Vec::new(),
            scenario: None,
            step: None,
            doc: None,
        };
        assert(scenario_views(r.scenarios@) =~= Seq::empty());
        r
    }

    /// Adds the open step to the open scenario.
    fn close_step(self) -> (r: Self)
        ensures
            r.model() == step_closed(self.model()),
    {
        let scenario = match (self.scenario, self.step) {
            (Some(sc), Some(st)) => {
                let mut steps = sc.steps;
                let ghost before = steps@;
                steps.push(st);
                assert(step_views(steps@) =~= step_views(before).push(st@));
                Some(Scenario { name: sc.name, steps })
            },
            (sc, _) => sc,
        };
        Reader { name: self.name, scenarios: self.scenarios, scenario, step: None, doc: self.doc }
    }

    /// Adds the open scenario to the feature.
    fn close_scenario(self) -> (r: Self)
        ensures
            r.model() == scenario_closed(self.model()),
    {
        let closed = self.close_step();
        let mut scenarios = closed.scenarios;
        let ghost before = scenarios@;
        match closed.scenario {
            Some(sc) => {
                scenarios.push(sc);
                assert(scenario_views(scenarios@) =~= scenario_views(before).push(sc@));
            },
            None => {},
        }
        Reader { name: closed.name, scenarios, scenario: None, step: closed.step, doc: closed.doc }
    }

    /// Reads one line.
    fn read_line(self, raw: &str) -> (r: Self)
        ensures
            r.model() == line_read(self.model(), raw@),
    {
        let line = trim_end(raw);
        match self.doc {
            Some(doc) => {
                let start = trim_start(line.as_str());
                if starts_with(start.as_str(), "\"\"\"") {
                    let step = match self.step {
                        Some(st) => Some(
                            Step { keyword: st.keyword, text: st.text, doc_string: Some(doc) },
                        ),
                        None => None,
                    };
                    Reader {
                        name: self.name,
                        scenarios: self.scenarios,
                        scenario: self.scenario,
                        step,
                        doc: None,
                    }
                } else {
                    let mut more = doc;
                    more.append(line.as_str());
                    more.push('\n');
                    Reader {
                        name: self.name,
                        scenarios: self.scenarios,
                        scenario: self.scenario,
                        step: self.step,
                        doc: Some(more),
                    }
                }
            },
            None => {
                let t = trim(line.as_str());
                let here = Reader {
                    name: self.name,
                    scenarios: self.scenarios,
                    scenario: self.scenario,
                    step: self.step,
                    doc: None,
                };
                match strip_prefix(t.as_str(), "Feature:") {
                    Some(rest) => {
                        return Reader { name: trim(rest.as_str()), ..here };
                    },
                    None => {},
                }
                match strip_prefix(t.as_str(), "Scenario:") {
                    Some(rest) => {
                        let steps: Vec<Step> = Vec::new();
                        assert(step_views(steps@) =~= Seq::empty());
                        let scenario = Scenario { name: trim(rest.as_str()), steps };
                        return Reader { scenario: Some(scenario), ..here.close_scenario() };
                    },
                    None => {},
                }
                if starts_with(t.as_str(), "\"\"\"") {
                    Reader { doc: Some(String::new()), ..here }
                } else if t.as_str().is_empty() || starts_with(t.as_str(), "#") {
                    here
                } else {
                    let (keyword, text) = split_step(t.as_str());
                    let step = Step { keyword, text, doc_string: None };
                    Reader { step: Some(step), ..here.close_step() }
                }
            },
        }
    }
}

/// Splits a step into its keyword and its text.
fn split_step(line: &str) -> (r: (String, String))
    ensures
        (r.0@, r.1@) == step_parts(line@),
{
    match strip_prefix(line, "Given ") {
        Some(rest) => {
            return ("Given".to_owned(), trim(rest.as_str()));
        },
        None => {},
    }
    match strip_prefix(line, "When ") {
        Some(rest) => {
            return ("When".to_owned(), trim(rest.as_str()));
        },
        None => {},
    }
    match strip_prefix(line, "Then ") {
        Some(rest) => {
            return ("Then".to_owned(), trim(rest.as_str()));
        },
        None => {},
    }
    match strip_prefix(line, "And ") {
        Some(rest) => {
            return ("And".to_owned(), trim(rest.as_str()));
        },
        None => {},
    }
    match strip_prefix(line, "But ") {
        Some(rest) => {
            return ("But".to_owned(), trim(rest.as_str()));
        },
        None => {},
    }
    ("Step".to_owned(), line.to_owned())
}

/// Parses a feature file. Every text is a feature.
pub fn parse_feature_str(text: &str, file: String) -> (r: Result<Feature, String>)
    ensures
        r is Ok,
        r->Ok_0.name@ == feature_read(text@).name,
        r->Ok_0.file@ == file@,
        scenario_views(r->Ok_0.scenarios@) == feature_read(text@).scenarios,
{
    let all = lines(text);
    let ghost m = lines_of(text@);
    let mut reader = Reader::new();
    let mut i: usize = 0;
    assert(m.take(0) =~= Seq::empty());
    while i < all.len()
        invariant
            i <= all.len(),
            m == views(all@),
            reader.model() == lines_read(m.take(i as int)),
        decreases all.len() - i,
    {
        reader = reader.read_line(all[i].as_str());
        proof {
            let next = m.take(i + 1);
            assert(next.drop_last() =~= m.take(i as int));
            assert(next.last() == all@[i as int]@);
        }
        i += 1;
    }
    assert(m.take(all.len() as int) =~= m);
    let done = reader.close_scenario();
    Ok(Feature { name: done.name, file, scenarios: done.scenarios })
}

/// Whether a document calls the network.
pub open spec fn calls_network(doc: Seq<char>) -> bool {
    occurs(doc, "call: http"@) || occurs(doc, "call: openapi"@)
}

/// Whether a scenario calls the network.
pub open spec fn uses_network(s: ScenarioModel) -> bool {
    exists|i: int|
        0 <= i < s.steps.len() && (#[trigger] s.steps[i]).doc_string is Some && calls_network(
            s.steps[i].doc_string.unwrap(),
        )
}

/// Decides whether a scenario calls the network.
pub fn scenario_uses_network(scenario: &Scenario) -> (r: bool)
    ensures
        r == uses_network(scenario@),
{
    let mut i: usize = 0;
    while i < scenario.steps.len()
        invariant
            i <= scenario.steps.len(),
            forall|j: int|
                0 <= j < i ==> !((#[trigger] scenario@.steps[j]).doc_string is Some
                    && calls_network(scenario@.steps[j].doc_string.unwrap())),
        decreases scenario.steps.len() - i,
    {
        assert(scenario@.steps[i as int] == scenario.steps@[i as int]@);
        match &scenario.steps[i].doc_string {
            Some(doc) => {
                if contains(doc.as_str(), "call: http") || contains(
                    doc.as_str(),
                    "call: openapi",
                ) {
                    return true;
                }
            },
            None => {},
        }
        i += 1;
    }
    false
}

/// Decides whether a scenario is run: one that calls the network is skipped where
/// the network is not included.
pub fn runs(scenario: &Scenario, include_network: bool) -> (r: bool)
    ensures
        r == !(uses_network(scenario@) && !include_network),
{
    include_network || !scenario_uses_network(scenario)
}

// ---------------------------------------------------------------------------
// What a step asks
// ---------------------------------------------------------------------------

/// What is asked of a property of the output.
#[derive(Debug, Clone, Copy, PartialEq, Eq, Structural)]
pub enum PropertyAssertion {
    /// It has the value in the document.
    WithValue,
    /// It is an array of so many items.
    ItemCount(usize),
}

/// What a step asks.
#[derive(Debug)]
pub enum StepKind {
    /// The document is the workflow definition.
    Definition,
    /// The document is the workflow input.
    Input,
    /// The workflow is executed.
    Execute,
    /// The workflow completes, with the output in the document or any.
    Completes { output: bool },
    /// The workflow faults, with the error in the document or any.
    Faults { error: bool },
    /// The workflow is cancelled.
    Cancels,
    /// The output has properties.
    Properties(Vec<String>),
    /// A property of the output is as asked.
    Property(String, PropertyAssertion),
    /// A task runs first.
    RunsFirst(String),
    /// A task runs last.
    RunsLast(String),
    /// A task runs before another.
    RunsBefore(String, String),
    /// A task runs after another.
    RunsAfter(String, String),
    /// A task completes.
    TaskCompletes(String),
    /// A task faults.
    TaskFaults(String),
    /// A task is cancelled.
    TaskCancels(String),
    /// Nothing is asked.
    Ignored,
}

/// The model of a [`StepKind`].
pub ghost enum Kind {
    Definition,
    Input,
    Execute,
    Completes { output: bool },
    Faults { error: bool },
    Cancels,
    Properties(Seq<Seq<char>>),
    Property(Seq<char>, PropertyAssertion),
    RunsFirst(Seq<char>),
    RunsLast(Seq<char>),
    RunsBefore(Seq<char>, Seq<char>),
    RunsAfter(Seq<char>, Seq<char>),
    TaskCompletes(Seq<char>),
    TaskFaults(Seq<char>),
    TaskCancels(Seq<char>),
    Ignored,
}

impl View for StepKind {
    type V = Kind;

    open spec fn view(&self) -> Kind {
        match self {
            StepKind::Definition => Kind::Definition,
            StepKind::Input => Kind::Input,
            StepKind::Execute => Kind::Execute,
            StepKind::Completes { output } => Kind::Completes { output: *output },
            StepKind::Faults { error } => Kind::Faults { error: *error },
            StepKind::Cancels => Kind::Cancels,
            StepKind::Properties(paths) => Kind::Properties(views(paths@)),
            StepKind::Property(path, what) => Kind::Property(path@, *what),
            StepKind::RunsFirst(t) => Kind::RunsFirst(t@),
            StepKind::RunsLast(t) => Kind::RunsLast(t@),
            StepKind::RunsBefore(a, b) => Kind::RunsBefore(a@, b@),
            StepKind::RunsAfter(a, b) => Kind::RunsAfter(a@, b@),
            StepKind::TaskCompletes(t) => Kind::TaskCompletes(t@),
            StepKind::TaskFaults(t) => Kind::TaskFaults(t@),
            StepKind::TaskCancels(t) => Kind::TaskCancels(t@),
            StepKind::Ignored => Kind::Ignored,
        }
    }
}

/// A property path without the white space and the quotation marks around it.
pub open spec fn bare_path(s: Seq<char>) -> Seq<char> {
    stripped_of(stripped_of(trimmed(s), '\''), '"')
}

/// The paths that are not empty.
pub open spec fn bare_paths(parts: Seq<Seq<char>>) -> Seq<Seq<char>>
    decreases parts.len(),
{
    if parts.len() == 0 {
        Seq::empty()
    } else {
        let rest = bare_paths(parts.drop_last());
        let last = bare_path(parts.last());
        if last.len() == 0 {
            rest
        } else {
            rest.push(last)
        }
    }
}

/// What is asked of a property: `'path' property with value:` or
/// `'path' property containing N items`.
pub open spec fn property_asked(rest: Seq<char>) -> Option<(Seq<char>, PropertyAssertion)> {
    match without_prefix(trimmed(rest), "'"@) {
        None => None,
        Some(quoted) => match cut_at(quoted, "'"@) {
            None => None,
            Some((path, tail)) => {
                let t = trimmed(tail);
                if "property with value:"@.is_prefix_of(t) {
                    Some((path, PropertyAssertion::WithValue))
                } else {
                    match without_prefix(t, "property containing "@) {
                        None => None,
                        Some(count) => match first_word_of(count) {
                            None => None,
                            Some(word) => match parsed_usize(word) {
                                Some(n) => Some((path, PropertyAssertion::ItemCount(n as usize))),
                                None => None,
                            },
                        },
                    }
                }
            },
        },
    }
}

/// The two task names around a keyword.
pub open spec fn names_around(s: Seq<char>, keyword: Seq<char>) -> Option<(Seq<char>, Seq<char>)> {
    match cut_at(s, keyword) {
        Some((a, b)) => Some((stripped_of(trimmed(a), '\''), stripped_of(trimmed(b), '\''))),
        None => None,
    }
}

/// What the text of a step asks.
pub open spec fn kind_of(s: Seq<char>) -> Kind {
    if s == "a workflow with definition:"@ {
        Kind::Definition
    } else if s == "given the workflow input is:"@ {
        Kind::Input
    } else if s == "the workflow is executed"@ {
        Kind::Execute
    } else if "the workflow should complete"@.is_prefix_of(s) {
        Kind::Completes { output: "the workflow should complete with output:"@.is_prefix_of(s) }
    } else if "the workflow should fault"@.is_prefix_of(s) {
        Kind::Faults { error: "the workflow should fault with error:"@.is_prefix_of(s) }
    } else if s == "the workflow should cancel"@ {
        Kind::Cancels
    } else if without_prefix(s, "the workflow output should have properties"@) is Some {
        Kind::Properties(
            bare_paths(
                split_parts(
                    trimmed(
                        without_prefix(s, "the workflow output should have properties"@).unwrap(),
                    ),
                    ","@,
                ),
            ),
        )
    } else if without_prefix(s, "the workflow output should have a "@) is Some {
        match property_asked(
            without_prefix(s, "the workflow output should have a "@).unwrap(),
        ) {
            Some((path, what)) => Kind::Property(path, what),
            None => Kind::Ignored,
        }
    } else {
        task_kind_of(s)
    }
}

/// What the text of a step asks of tasks.
pub open spec fn task_kind_of(s: Seq<char>) -> Kind {
    if without_suffix(s, " should run first"@) is Some {
        Kind::RunsFirst(without_suffix(s, " should run first"@).unwrap())
    } else if without_suffix(s, " should run last"@) is Some {
        Kind::RunsLast(without_suffix(s, " should run last"@).unwrap())
    } else if names_around(s, "should run before"@) is Some {
        Kind::RunsBefore(
            names_around(s, "should run before"@).unwrap().0,
            names_around(s, "should run before"@).unwrap().1,
        )
    } else if names_around(s, "should run after"@) is Some {
        Kind::RunsAfter(
            names_around(s, "should run after"@).unwrap().0,
            names_around(s, "should run after"@).unwrap().1,
        )
    } else if without_suffix(s, " should complete"@) is Some {
        Kind::TaskCompletes(without_suffix(s, " should complete"@).unwrap())
    } else if without_suffix(s, " should fault"@) is Some {
        Kind::TaskFaults(without_suffix(s, " should fault"@).unwrap())
    } else if without_suffix(s, " should cancel"@) is Some {
        Kind::TaskCancels(without_suffix(s, " should cancel"@).unwrap())
    } else {
        Kind::Ignored
    }
}

/// A property path without what stands around it.
fn clean_path(s: &str) -> (r: String)
    ensures
        r@ == bare_path(s@),
{
    let a = trim(s);
    let b = trim_matches(a.as_str(), '\'');
    trim_matches(b.as_str(), '"')
}

/// The property paths in a list.
fn property_paths(list: &str) -> (r: Vec<String>)
    ensures
        views(r@) == bare_paths(split_parts(trimmed(list@), ","@)),
{
    let inner = trim(list);
    let parts = split(inner.as_str(), ",");
    let ghost m = views(parts@);
    let mut out: Vec<String> = Vec::new();
    let mut i: usize = 0;
    assert(views(out@) =~= bare_paths(m.take(0)));
    while i < parts.len()
        invariant
            i <= parts.len(),
            m == views(parts@),
            views(out@) == bare_paths(m.take(i as int)),
        decreases parts.len() - i,
    {
        let path = clean_path(parts[i].as_str());
        proof {
            let next = m.take(i + 1);
            assert(next.drop_last() =~= m.take(i as int));
            assert(next.last() == parts@[i as int]@);
        }
        if !path.as_str().is_empty() {
            let ghost before = out@;
            out.push(path);
            assert(views(out@) =~= views(before).push(path@));
        }
        i += 1;
    }
    assert(m.take(parts.len() as int) =~= m);
    out
}

/// What is asked of a property.
fn parse_property_assertion(rest: &str) -> (r: Option<(String, PropertyAssertion)>)
    ensures
        match r {
            Some((path, what)) => property_asked(rest@) == Some((path@, what)),
            None => property_asked(rest@) is None,
        },
{
    let text = trim(rest);
    let quoted = match strip_prefix(text.as_str(), "'") {
        Some(quoted) => quoted,
        None => {
            return None;
        },
    };
    let (path, tail) = match split_once(quoted.as_str(), "'") {
        Some(parts) => parts,
        None => {
            return None;
        },
    };
    let t = trim(tail.as_str());
    if starts_with(t.as_str(), "property with value:") {
        return Some((path, PropertyAssertion::WithValue));
    }
    let count = match strip_prefix(t.as_str(), "property containing ") {
        Some(count) => count,
        None => {
            return None;
        },
    };
    let word = match first_word(count.as_str()) {
        Some(word) => word,
        None => {
            return None;
        },
    };
    match parse_usize(word.as_str()) {
        Some(n) => Some((path, PropertyAssertion::ItemCount(n))),
        None => None,
    }
}

/// The two task names around a keyword.
fn parse_run_before(text: &str, keyword: &str) -> (r: Option<(String, String)>)
    ensures
        match r {
            Some((a, b)) => names_around(text@, keyword@) == Some((a@, b@)),
            None => names_around(text@, keyword@) is None,
        },
{
    match split_once(text, keyword) {
        Some((a, b)) => {
            let left = trim(a.as_str());
            let right = trim(b.as_str());
            Some((trim_matches(left.as_str(), '\''), trim_matches(right.as_str(), '\'')))
        },
        None => None,
    }
}

/// What the text of a step asks of tasks.
fn classify_task_step(text: &str) -> (r: StepKind)
    ensures
        r@ == task_kind_of(text@),
{
    match strip_suffix(text, " should run first") {
        Some(t) => {
            return StepKind::RunsFirst(t);
        },
        None => {},
    }
    match strip_suffix(text, " should run last") {
        Some(t) => {
            return StepKind::RunsLast(t);
        },
        None => {},
    }
    match parse_run_before(text, "should run before") {
        Some((a, b)) => {
            return StepKind::RunsBefore(a, b);
        },
        None => {},
    }
    match parse_run_before(text, "should run after") {
        Some((a, b)) => {
            return StepKind::RunsAfter(a, b);
        },
        None => {},
    }
    match strip_suffix(text, " should complete") {
        Some(t) => {
            return StepKind::TaskCompletes(t);
        },
        None => {},
    }
    match strip_suffix(text, " should fault") {
        Some(t) => {
            return StepKind::TaskFaults(t);
        },
        None => {},
    }
    match strip_suffix(text, " should cancel") {
        Some(t) => {
            return StepKind::TaskCancels(t);
        },
        None => {},
    }
    StepKind::Ignored
}

/// What the text of a step asks, without the white space around it.
pub fn classify_step(text: &str) -> (r: StepKind)
    ensures
        r@ == kind_of(trimmed(text@)),
{
    let trimmed_text = trim(text);
    let s = trimmed_text.as_str();
    if text_eq(s, "a workflow with definition:") {
        return StepKind::Definition;
    }
    if text_eq(s, "given the workflow input is:") {
        return StepKind::Input;
    }
    if text_eq(s, "the workflow is executed") {
        return StepKind::Execute;
    }
    if starts_with(s, "the workflow should complete") {
        let output = starts_with(s, "the workflow should complete with output:");
        return StepKind::Completes { output };
    }
    if starts_with(s, "the workflow should fault") {
        let error = starts_with(s, "the workflow should fault with error:");
        return StepKind::Faults { error };
    }
    if text_eq(s, "the workflow should cancel") {
        return StepKind::Cancels;
    }
    match strip_prefix(s, "the workflow output should have properties") {
        Some(list) => {
            return StepKind::Properties(property_paths(list.as_str()));
        },
        None => {},
    }
    match strip_prefix(s, "the workflow output should have a ") {
        Some(rest) => {
            return match parse_property_assertion(rest.as_str()) {
                Some((path, what)) => StepKind::Property(path, what),
                None => StepKind::Ignored,
            };
        },
        None => {},
    }
    classify_task_step(s)
}

// ---------------------------------------------------------------------------
// Values and orders
// ---------------------------------------------------------------------------

/// The value at the end of a path of member names.
pub open spec fn value_at(j: Json, parts: Seq<Seq<char>>) -> Option<Json>
    decreases parts.len(),
{
    if parts.len() == 0 {
        Some(j)
    } else {
        match j {
            Json::Object(m) => match lookup(m, parts[0]) {
                Some(v) => value_at(v, parts.skip(1)),
                None => None,
            },
            _ => None,
        }
    }
}

/// The value at a path of member names with dots between them.
pub open spec fn path_value(j: Json, path: Seq<char>) -> Option<Json> {
    value_at(j, split_parts(path, "."@))
}

/// Gets the value at a path.
pub fn get_path<'a>(value: &'a Value, path: &str) -> (r: Option<&'a Value>)
    ensures
        match r {
            Some(v) => path_value(value@, path@) == Some(v@),
            None => path_value(value@, path@) is None,
        },
{
    let parts = split(path, ".");
    let ghost m = views(parts@);
    let mut current = value;
    let mut i: usize = 0;
    assert(m.skip(0) =~= m);
    while i < parts.len()
        invariant
            i <= parts.len(),
            m == views(parts@),
            m == split_parts(path@, "."@),
            value_at(current@, m.skip(i as int)) == value_at(value@, m),
        decreases parts.len() - i,
    {
        proof {
            assert(m.skip(i as int)[0] == parts@[i as int]@);
            assert(m.skip(i as int).skip(1) =~= m.skip(i + 1));
        }
        match current.get(parts[i].as_str()) {
            Some(v) => {
                current = v;
            },
            None => {
                return None;
            },
        }
        i += 1;
    }
    Some(current)
}

/// Compares two values, numbers by their value.
pub fn values_equal(a: &Value, b: &Value) -> (r: bool)
    ensures
        r == is_equal(a@, b@),
{
    equal(a, b)
}

/// The first place of a text in a list.
pub open spec fn place_of(list: Seq<Seq<char>>, s: Seq<char>) -> Option<nat>
    decreases list.len(),
{
    if list.len() == 0 {
        None
    } else if list[0] == s {
        Some(0)
    } else {
        match place_of(list.skip(1), s) {
            Some(i) => Some(i + 1),
            None => None,
        }
    }
}

/// Finds the first place of a text in a list.
fn find_text(list: &Vec<String>, s: &str) -> (r: Option<usize>)
    ensures
        match r {
            Some(i) => place_of(views(list@), s@) == Some(i as nat) && i < list.len(),
            None => place_of(views(list@), s@) is None,
        },
{
    let ghost m = views(list@);
    let mut i: usize = 0;
    assert(m.skip(0) =~= m);
    while i < list.len()
        invariant
            i <= list.len(),
            m == views(list@),
            place_of(m, s@) == (match place_of(m.skip(i as int), s@) {
                Some(k) => Some(k + i as nat),
                None => None,
            }),
        decreases list.len() - i,
    {
        proof {
            assert(m.skip(i as int)[0] == list@[i as int]@);
            assert(m.skip(i as int).skip(1) =~= m.skip(i + 1));
        }
        if text_eq(list[i].as_str(), s) {
            return Some(i);
        }
        i += 1;
    }
    None
}

/// The notation of a list of texts in messages.
pub open spec fn list_notation(list: Seq<Seq<char>>) -> Seq<char> {
    "["@ + joined(list.map_values(|s: Seq<char>| debug_notation(s)), ", "@) + "]"@
}

/// Writes a list of texts for a message.
fn write_list(list: &Vec<String>) -> (r: String)
    ensures
        r@ == list_notation(views(list@)),
{
    let ghost f = |s: Seq<char>| debug_notation(s);
    let mut parts: Vec<String> = Vec::new();
    let mut i: usize = 0;
    while i < list.len()
        invariant
            i <= list.len(),
            parts.len() == i,
            forall|j: int| 0 <= j < i ==> (#[trigger] parts@[j])@ == debug_notation(list@[j]@),
        decreases list.len() - i,
    {
        parts.push(debug_string(list[i].as_str()));
        i += 1;
    }
    assert(views(parts@) =~= views(list@).map_values(|s: Seq<char>| debug_notation(s)));
    let body = join(&parts, ", ");
    concat3("[", body.as_str(), "]")
}

// ---------------------------------------------------------------------------
// Running a scenario
// ---------------------------------------------------------------------------

/// The error of an execution: its kind, its text, and its description as a value.
#[derive(Debug)]
pub struct RunError {
    pub kind: ErrorKind,
    pub text: String,
    pub problem: Value,
}

/// The model of a [`RunError`].
pub ghost struct RunErrorModel {
    pub kind: ErrorKind,
    pub text: Seq<char>,
    pub problem: Json,
}

impl View for RunError {
    type V = RunErrorModel;

    open spec fn view(&self) -> RunErrorModel {
        RunErrorModel { kind: self.kind, text: self.text@, problem: self.problem@ }
    }
}

/// How an execution ended.
pub type RunResult = Result<Value, RunError>;

/// The model of a [`RunResult`].
pub type RunResultModel = Result<Json, RunErrorModel>;

/// The model of how an execution ended.
pub open spec fn run_view(r: RunResult) -> RunResultModel {
    match r {
        Ok(v) => Ok(v@),
        Err(e) => Err(e@),
    }
}

/// What came of the attempt to execute a workflow.
#[derive(Debug)]
pub enum Execution {
    /// The definition could not be decoded.
    Undecodable(String),
    /// The definition violates rules, given by their codes.
    Invalid(Vec<String>),
    /// The definition could not be compiled.
    Uncompilable(String),
    /// The workflow ran, and tasks ran in an order.
    Ran { result: RunResult, order: Vec<String> },
}

/// The model of an [`Execution`].
pub ghost enum ExecutionModel {
    Undecodable(Seq<char>),
    Invalid(Seq<Seq<char>>),
    Uncompilable(Seq<char>),
    Ran { result: RunResultModel, order: Seq<Seq<char>> },
}

impl View for Execution {
    type V = ExecutionModel;

    open spec fn view(&self) -> ExecutionModel {
        match self {
            Execution::Undecodable(m) => ExecutionModel::Undecodable(m@),
            Execution::Invalid(codes) => ExecutionModel::Invalid(views(codes@)),
            Execution::Uncompilable(m) => ExecutionModel::Uncompilable(m@),
            Execution::Ran { result, order } => ExecutionModel::Ran {
                result: run_view(*result),
                order: views(order@),
            },
        }
    }
}

/// The codes of the violations that a validation found.
pub open spec fn issue_codes(issues: Seq<Issue>) -> Seq<Seq<char>> {
    issues.map_values(|i: Issue| i.code)
}

/// Whether a definition can run: what the rules look at in it, or why it cannot run,
/// which is that it cannot be decoded or violates rules.
pub open spec fn is_preparation(
    r: Result<Definition, Execution>,
    model: Result<Json, Seq<char>>,
) -> bool {
    match model {
        Err(m) => r is Err && r->Err_0@ == ExecutionModel::Undecodable(m),
        Ok(j) => {
            let issues = definition_issues(definition_of(j));
            if issues.len() == 0 {
                r is Ok && r->Ok_0@ == definition_of(j)
            } else {
                r is Err && r->Err_0@ == ExecutionModel::Invalid(issue_codes(issues))
            }
        },
    }
}

/// Decodes and validates a definition before it runs.
pub fn prepare(value: &Value) -> (r: Result<Definition, Execution>)
    ensures
        is_preparation(r, model_json(held(value@))),
{
    let workflow = match decode_workflow(value) {
        Ok(w) => w,
        Err(e) => {
            return Err(Execution::Undecodable(e));
        },
    };
    let def = model_definition(&workflow);
    let report = validate(&def);
    let ghost issues = issue_views(report.issues@);
    if report.is_valid() {
        return Ok(def);
    }
    let mut codes: Vec<String> = Vec::new();
    let mut i: usize = 0;
    while i < report.issues.len()
        invariant
            i <= report.issues.len(),
            codes.len() == i,
            issues == issue_views(report.issues@),
            forall|k: int| 0 <= k < i ==> (#[trigger] codes@[k])@ == issues[k].code,
        decreases report.issues.len() - i,
    {
        codes.push(report.issues[i].code.clone());
        i += 1;
    }
    assert(views(codes@) =~= issue_codes(issues));
    Err(Execution::Invalid(codes))
}

/// The document of a step: none, a value, or the message of the decoder.
pub type Document = Option<Result<Value, String>>;

/// The model of a [`Document`].
pub type DocumentModel = Option<Result<Json, Seq<char>>>;

/// The model of a document.
pub open spec fn document_view(d: Document) -> DocumentModel {
    match d {
        Some(Ok(v)) => Some(Ok(v@)),
        Some(Err(e)) => Some(Err(e@)),
        None => None,
    }
}

/// The value of a document; null where there is none.
pub open spec fn document_value(d: DocumentModel) -> Json {
    match d {
        Some(Ok(v)) => v,
        _ => Json::Null,
    }
}

/// The document that is read from the text under a step, as YAML.
pub open spec fn document_of(text: Option<Seq<char>>) -> DocumentModel {
    match text {
        Some(t) => Some(yaml_value(t)),
        None => None,
    }
}

/// Reads the text under a step.
pub fn read_document(text: &Option<String>) -> (r: Document)
    ensures
        document_view(r) == document_of(opt_view(*text)),
{
    match text {
        Some(t) => Some(read_yaml(t.as_str())),
        None => None,
    }
}

/// The state of running a scenario.
#[derive(Debug)]
pub struct ScenarioRun {
    definition: Option<Value>,
    input: Value,
    executed: bool,
    result: Option<RunResult>,
    order: Vec<String>,
    failures: Vec<String>,
}

/// The model of a [`ScenarioRun`].
pub ghost struct RunModel {
    pub definition: Option<Json>,
    pub input: Json,
    pub executed: bool,
    pub result: Option<RunResultModel>,
    pub order: Seq<Seq<char>>,
    pub failures: Seq<Seq<char>>,
}

impl View for ScenarioRun {
    type V = RunModel;

    closed spec fn view(&self) -> RunModel {
        RunModel {
            definition: option_json(self.definition),
            input: self.input@,
            executed: self.executed,
            result: match self.result {
                Some(r) => Some(run_view(r)),
                None => None,
            },
            order: views(self.order@),
            failures: views(self.failures@),
        }
    }
}

/// Nothing, or one failure.
pub open spec fn failure_if(bad: bool, message: Seq<char>) -> Seq<Seq<char>> {
    if bad {
        seq![message]
    } else {
        Seq::empty()
    }
}

/// The failure of a value that is not the expected one.
pub open spec fn mismatch(head: Seq<char>, expected: Json, actual: Json) -> Seq<Seq<char>> {
    failure_if(
        !is_equal(actual, expected),
        head + "expected "@ + json_text(expected) + ", got "@ + json_text(actual),
    )
}

/// The failures of a workflow that should complete.
pub open spec fn complete_failures(st: RunModel, output: bool, doc: DocumentModel) -> Seq<
    Seq<char>,
> {
    match st.result {
        None => failure_if(!st.executed, "workflow was not executed"@),
        Some(r) => (match r {
            Ok(_) => Seq::empty(),
            Err(e) => seq!["expected completion, got fault: "@ + e.text],
        }) + (if output {
            mismatch(
                "output mismatch: "@,
                document_value(doc),
                match r {
                    Ok(v) => v,
                    Err(_) => Json::Null,
                },
            )
        } else {
            Seq::empty()
        }),
    }
}

/// The failures of a workflow that should fault.
pub open spec fn fault_failures(st: RunModel, error: bool, doc: DocumentModel) -> Seq<Seq<char>> {
    match st.result {
        None => Seq::empty(),
        Some(r) => (match r {
            Err(_) => Seq::empty(),
            Ok(v) => seq!["expected fault, got output "@ + json_text(v)],
        }) + (if error {
            mismatch(
                "error mismatch: "@,
                document_value(doc),
                match r {
                    Ok(_) => Json::Null,
                    Err(e) => e.problem,
                },
            )
        } else {
            Seq::empty()
        }),
    }
}

/// The failures of a workflow that should be cancelled.
pub open spec fn cancel_failures(st: RunModel) -> Seq<Seq<char>> {
    match st.result {
        None => Seq::empty(),
        Some(Ok(_)) => seq!["expected cancellation, got completion"@],
        Some(Err(e)) => failure_if(
            e.kind != ErrorKind::Cancelled,
            "expected cancellation, got: "@ + e.text,
        ),
    }
}

/// The output of a workflow that completed.
pub open spec fn output_of(st: RunModel) -> Option<Json> {
    match st.result {
        Some(Ok(v)) => Some(v),
        _ => None,
    }
}

/// The failures of an output that should have properties.
pub open spec fn missing_properties(output: Json, paths: Seq<Seq<char>>) -> Seq<Seq<char>>
    decreases paths.len(),
{
    if paths.len() == 0 {
        Seq::empty()
    } else {
        missing_properties(output, paths.drop_last()) + failure_if(
            path_value(output, paths.last()) is None,
            "missing property `"@ + paths.last() + "`"@,
        )
    }
}

/// The failures of an output of which a property should be as asked.
pub open spec fn property_failures(
    output: Json,
    path: Seq<char>,
    what: PropertyAssertion,
    doc: DocumentModel,
) -> Seq<Seq<char>> {
    match what {
        PropertyAssertion::WithValue => mismatch(
            "property `"@ + path + "` mismatch: "@,
            document_value(doc),
            match path_value(output, path) {
                Some(v) => v,
                None => Json::Null,
            },
        ),
        PropertyAssertion::ItemCount(n) => match path_value(output, path) {
            Some(Json::Array(items)) => failure_if(
                items.len() != n,
                "property `"@ + path + "` has "@ + decimal(items.len()) + " items, expected "@
                    + decimal(n as nat),
            ),
            _ => seq!["property `"@ + path + "` is not an array"@],
        },
    }
}

/// The failures of two tasks that should run in an order.
pub open spec fn order_failures(
    order: Seq<Seq<char>>,
    a: Seq<char>,
    b: Seq<char>,
    before: bool,
) -> Seq<Seq<char>> {
    match (place_of(order, a), place_of(order, b)) {
        (Some(i), Some(j)) => if before {
            failure_if(
                !(i < j),
                "expected `"@ + a + "` to run before `"@ + b + "`, but "@ + decimal(i) + " >= "@
                    + decimal(j),
            )
        } else {
            failure_if(
                !(i > j),
                "expected `"@ + a + "` to run after `"@ + b + "`, but "@ + decimal(i) + " <= "@
                    + decimal(j),
            )
        },
        (None, _) => seq!["task `"@ + a + "` did not run"@],
        (_, None) => seq!["task `"@ + b + "` did not run"@],
    }
}

/// Whether a task is the first that ran.
pub open spec fn ran_first(order: Seq<Seq<char>>, task: Seq<char>) -> bool {
    order.len() > 0 && order[0] == trimmed(task)
}

/// Whether a task is the last that ran.
pub open spec fn ran_last(order: Seq<Seq<char>>, task: Seq<char>) -> bool {
    order.len() > 0 && order.last() == trimmed(task)
}

/// Whether a task ran.
pub open spec fn has_run(order: Seq<Seq<char>>, task: Seq<char>) -> bool {
    place_of(order, trimmed(task)) is Some
}

/// The failures that a step finds.
pub open spec fn check_failures(st: RunModel, kind: Kind, doc: DocumentModel) -> Seq<Seq<char>> {
    match kind {
        Kind::Completes { output } => complete_failures(st, output, doc),
        Kind::Faults { error } => fault_failures(st, error, doc),
        Kind::Cancels => cancel_failures(st),
        Kind::Properties(paths) => match output_of(st) {
            Some(v) => missing_properties(v, paths),
            None => Seq::empty(),
        },
        Kind::Property(path, what) => match output_of(st) {
            Some(v) => property_failures(v, path, what, doc),
            None => Seq::empty(),
        },
        Kind::RunsFirst(t) => failure_if(
            !ran_first(st.order, t),
            "expected `"@ + t + "` to run first, order was "@ + list_notation(st.order),
        ),
        Kind::RunsLast(t) => failure_if(
            !ran_last(st.order, t),
            "expected `"@ + t + "` to run last, order was "@ + list_notation(st.order),
        ),
        Kind::RunsBefore(a, b) => order_failures(st.order, a, b, true),
        Kind::RunsAfter(a, b) => order_failures(st.order, a, b, false),
        Kind::TaskCompletes(t) => failure_if(
            !has_run(st.order, t),
            "task `"@ + t + "` did not complete"@,
        ),
        Kind::TaskFaults(t) => failure_if(
            !ran_last(st.order, t),
            "expected task `"@ + t + "` to be the faulting task"@,
        ),
        Kind::TaskCancels(t) => failure_if(
            !has_run(st.order, t),
            "task `"@ + t + "` did not run"@,
        ),
        _ => Seq::empty(),
    }
}

/// The state with more failures.
pub open spec fn with_failures(st: RunModel, more: Seq<Seq<char>>) -> RunModel {
    RunModel { failures: st.failures + more, ..st }
}

/// The state after the attempt to execute the workflow.
pub open spec fn executed_state(st: RunModel, execution: Option<ExecutionModel>) -> RunModel {
    let st = RunModel { executed: true, ..st };
    if st.definition is None {
        with_failures(st, seq!["no workflow definition"@])
    } else {
        match execution {
            None => st,
            Some(ExecutionModel::Undecodable(m)) => with_failures(
                st,
                seq!["failed to deserialize definition: "@ + m],
            ),
            Some(ExecutionModel::Invalid(codes)) => with_failures(
                st,
                seq!["definition invalid: "@ + list_notation(codes)],
            ),
            Some(ExecutionModel::Uncompilable(m)) => with_failures(
                st,
                seq!["compile failed: "@ + m],
            ),
            Some(ExecutionModel::Ran { result, order }) => RunModel {
                result: Some(result),
                order,
                ..st
            },
        }
    }
}

/// The state after a step.
pub open spec fn stepped(
    st: RunModel,
    kind: Kind,
    doc: DocumentModel,
    execution: Option<ExecutionModel>,
) -> RunModel {
    match kind {
        Kind::Definition => match doc {
            None => st,
            Some(Ok(v)) => RunModel { definition: Some(v), ..st },
            Some(Err(e)) => with_failures(
                (RunModel { definition: Some(Json::Null), ..st }),
                seq!["failed to parse workflow definition: "@ + e],
            ),
        },
        Kind::Input => match doc {
            None => st,
            Some(_) => RunModel { input: document_value(doc), ..st },
        },
        Kind::Execute => executed_state(st, execution),
        _ => with_failures(st, check_failures(st, kind, doc)),
    }
}

/// Appends a failure.
fn push_failure(out: &mut Vec<String>, message: String)
    ensures
        views(final(out)@) == views(old(out)@).push(message@),
{
    let ghost before = out@;
    out.push(message);
    assert(views(out@) =~= views(before).push(message@));
}

/// Appends the failure of a value that is not the expected one.
fn push_mismatch(out: &mut Vec<String>, head: &str, expected: &Value, actual: &Value)
    ensures
        views(final(out)@) == views(old(out)@) + mismatch(head@, expected@, actual@),
{
    let ghost before = views(out@);
    if !values_equal(actual, expected) {
        let want = write_json(expected);
        let got = write_json(actual);
        let message = concat5(head, "expected ", want.as_str(), ", got ", got.as_str());
        push_failure(out, message);
    }
    assert(views(out@) =~= before + mismatch(head@, expected@, actual@));
}

/// The value of a document.
fn doc_value(doc: &Document) -> (r: Value)
    ensures
        r@ == document_value(document_view(*doc)),
{
    match doc {
        Some(Ok(v)) => v.clone(),
        _ => Value::Null,
    }
}

/// The failures of an output that should have properties.
fn absent_properties(output: &Value, paths: &Vec<String>) -> (r: Vec<String>)
    ensures
        views(r@) == missing_properties(output@, views(paths@)),
{
    let ghost m = views(paths@);
    let mut out: Vec<String> = Vec::new();
    let mut i: usize = 0;
    assert(views(out@) =~= missing_properties(output@, m.take(0)));
    while i < paths.len()
        invariant
            i <= paths.len(),
            m == views(paths@),
            views(out@) == missing_properties(output@, m.take(i as int)),
        decreases paths.len() - i,
    {
        if get_path(output, paths[i].as_str()).is_none() {
            let message = concat3("missing property `", paths[i].as_str(), "`");
            push_failure(&mut out, message);
        }
        proof {
            let next = m.take(i + 1);
            assert(next.drop_last() =~= m.take(i as int));
            assert(next.last() == paths@[i as int]@);
            assert(views(out@) =~= missing_properties(output@, next));
        }
        i += 1;
    }
    assert(m.take(paths.len() as int) =~= m);
    out
}

impl ScenarioRun {
    /// A run before its first step.
    pub fn new() -> (r: Self)
        ensures
            r@ == (RunModel {
                definition: None,
                input: Json::Null,
                executed: false,
                result: None,
                order: Seq::empty(),
                failures: Seq::empty(),
            }),
    {
        let r = Self {
            definition: None,
            input: Value::Null,
            executed: false,
            result: None,
            order: Vec::new(),
            failures: Vec::new(),
        };
        assert(views(r.order@) =~= Seq::empty());
        assert(views(r.failures@) =~= Seq::empty());
        r
    }

    /// The workflow definition, if one was given.
    pub fn definition(&self) -> (r: Option<&Value>)
        ensures
            match r {
                Some(v) => self@.definition == Some(v@),
                None => self@.definition is None,
            },
    {
        match &self.definition {
            Some(v) => Some(v),
            None => None,
        }
    }

    /// The workflow input.
    pub fn input(&self) -> (r: &Value)
        ensures
            r@ == self@.input,
    {
        &self.input
    }

    /// Whether a step has to be followed by an execution: the workflow is to be
    /// executed and there is a definition.
    pub fn wants_execution(&self, kind: &StepKind) -> (r: bool)
        ensures
            r == (kind@ == Kind::Execute && self@.definition is Some),
    {
        match kind {
            StepKind::Execute => self.definition.is_some(),
            _ => false,
        }
    }

    /// Checks that the workflow completed.
    fn check_complete(&mut self, output: bool, doc: &Document)
        ensures
            final(self)@ == with_failures(
                old(self)@,
                complete_failures(old(self)@, output, document_view(*doc)),
            ),
    {
        let ghost before = self@;
        match &self.result {
            None => {
                if !self.executed {
                    push_failure(&mut self.failures, "workflow was not executed".to_owned());
                }
            },
            Some(r) => {
                match r {
                    Ok(_) => {},
                    Err(e) => {
                        let message = concat2("expected completion, got fault: ", e.text.as_str());
                        push_failure(&mut self.failures, message);
                    },
                }
                if output {
                    let expected = doc_value(doc);
                    match r {
                        Ok(v) => push_mismatch(
                            &mut self.failures,
                            "output mismatch: ",
                            &expected,
                            v,
                        ),
                        Err(_) => push_mismatch(
                            &mut self.failures,
                            "output mismatch: ",
                            &expected,
                            &Value::Null,
                        ),
                    }
                }
            },
        }
        assert(self@.failures =~= before.failures + complete_failures(
            before,
            output,
            document_view(*doc),
        ));
    }

    /// Checks that the workflow faulted.
    fn check_fault(&mut self, error: bool, doc: &Document)
        ensures
            final(self)@ == with_failures(
                old(self)@,
                fault_failures(old(self)@, error, document_view(*doc)),
            ),
    {
        let ghost before = self@;
        match &self.result {
            None => {},
            Some(r) => {
                match r {
                    Err(_) => {},
                    Ok(v) => {
                        let text = write_json(v);
                        let message = concat2("expected fault, got output ", text.as_str());
                        push_failure(&mut self.failures, message);
                    },
                }
                if error {
                    let expected = doc_value(doc);
                    match r {
                        Ok(_) => push_mismatch(
                            &mut self.failures,
                            "error mismatch: ",
                            &expected,
                            &Value::Null,
                        ),
                        Err(e) => push_mismatch(
                            &mut self.failures,
                            "error mismatch: ",
                            &expected,
                            &e.problem,
                        ),
                    }
                }
            },
        }
        assert(self@.failures =~= before.failures + fault_failures(
            before,
            error,
            document_view(*doc),
        ));
    }

    /// Checks that the workflow was cancelled.
    fn check_cancel(&mut self)
        ensures
            final(self)@ == with_failures(old(self)@, cancel_failures(old(self)@)),
    {
        let ghost before = self@;
        match &self.result {
            None => {},
            Some(Ok(_)) => push_failure(
                &mut self.failures,
                "expected cancellation, got completion".to_owned(),
            ),
            Some(Err(e)) => {
                if e.kind != ErrorKind::Cancelled {
                    let message = concat2("expected cancellation, got: ", e.text.as_str());
                    push_failure(&mut self.failures, message);
                }
            },
        }
        assert(self@.failures =~= before.failures + cancel_failures(before));
    }

    /// Checks that the output has properties.
    fn check_properties(&mut self, paths: &Vec<String>)
        ensures
            final(self)@ == with_failures(
                old(self)@,
                match output_of(old(self)@) {
                    Some(v) => missing_properties(v, views(paths@)),
                    None => Seq::empty(),
                },
            ),
    {
        let ghost before = self@;
        match &self.result {
            Some(Ok(output)) => {
                let mut more = absent_properties(output, paths);
                let ghost found = views(more@);
                self.failures.append(&mut more);
                assert(self@.failures =~= before.failures + found);
            },
            _ => {
                assert(before.failures + Seq::<Seq<char>>::empty() =~= before.failures);
            },
        }
    }

    /// Checks one property of the output.
    fn check_property(&mut self, path: &String, what: PropertyAssertion, doc: &Document)
        ensures
            final(self)@ == with_failures(
                old(self)@,
                match output_of(old(self)@) {
                    Some(v) => property_failures(v, path@, what, document_view(*doc)),
                    None => Seq::empty(),
                },
            ),
    {
        let ghost before = self@;
        match &self.result {
            Some(Ok(output)) => {
                let found = get_path(output, path.as_str());
                match what {
                    PropertyAssertion::WithValue => {
                        let expected = doc_value(doc);
                        let head = concat3("property `", path.as_str(), "` mismatch: ");
                        match found {
                            Some(v) => push_mismatch(
                                &mut self.failures,
                                head.as_str(),
                                &expected,
                                v,
                            ),
                            None => push_mismatch(
                                &mut self.failures,
                                head.as_str(),
                                &expected,
                                &Value::Null,
                            ),
                        }
                    },
                    PropertyAssertion::ItemCount(n) => match found {
                        Some(Value::Array(items)) => {
                            if items.len() != n {
                                let have = usize_text(items.len());
                                let want = usize_text(n);
                                let mut message = concat5(
                                    "property `",
                                    path.as_str(),
                                    "` has ",
                                    have.as_str(),
                                    " items, expected ",
                                );
                                message.append(want.as_str());
                                push_failure(&mut self.failures, message);
                            }
                        },
                        _ => {
                            let message = concat3("property `", path.as_str(), "` is not an array");
                            push_failure(&mut self.failures, message);
                        },
                    },
                }
                assert(self@.failures =~= before.failures + property_failures(
                    output@,
                    path@,
                    what,
                    document_view(*doc),
                ));
            },
            _ => {
                assert(before.failures + Seq::<Seq<char>>::empty() =~= before.failures);
            },
        }
    }

    /// Checks that a task ran first or last.
    fn check_end(&mut self, task: &String, first: bool)
        ensures
            final(self)@ == with_failures(
                old(self)@,
                check_failures(
                    old(self)@,
                    if first {
                        Kind::RunsFirst(task@)
                    } else {
                        Kind::RunsLast(task@)
                    },
                    None,
                ),
            ),
    {
        let ghost before = self@;
        let name = trim(task.as_str());
        let n = self.order.len();
        let at = if first || n == 0 {
            0
        } else {
            n - 1
        };
        let ok = n > 0 && text_eq(self.order[at].as_str(), name.as_str());
        if !ok {
            let list = write_list(&self.order);
            let mut message = concat3(
                "expected `",
                task.as_str(),
                if first {
                    "` to run first, order was "
                } else {
                    "` to run last, order was "
                },
            );
            message.append(list.as_str());
            push_failure(&mut self.failures, message);
        }
        assert(self@.failures =~= before.failures + check_failures(
            before,
            if first {
                Kind::RunsFirst(task@)
            } else {
                Kind::RunsLast(task@)
            },
            None,
        ));
    }

    /// Checks that a task ran before or after another.
    fn check_order(&mut self, a: &String, b: &String, first: bool)
        ensures
            final(self)@ == with_failures(
                old(self)@,
                order_failures(old(self)@.order, a@, b@, first),
            ),
    {
        let ghost before = self@;
        match (find_text(&self.order, a.as_str()), find_text(&self.order, b.as_str())) {
            (Some(i), Some(j)) => {
                let ok = if first {
                    i < j
                } else {
                    i > j
                };
                if !ok {
                    let x = usize_text(i);
                    let y = usize_text(j);
                    let mut message = concat5(
                        "expected `",
                        a.as_str(),
                        if first {
                            "` to run before `"
                        } else {
                            "` to run after `"
                        },
                        b.as_str(),
                        "`, but ",
                    );
                    message.append(x.as_str());
                    message.append(
                        if first {
                            " >= "
                        } else {
                            " <= "
                        },
                    );
                    message.append(y.as_str());
                    push_failure(&mut self.failures, message);
                }
            },
            (None, _) => {
                let message = concat3("task `", a.as_str(), "` did not run");
                push_failure(&mut self.failures, message);
            },
            (_, None) => {
                let message = concat3("task `", b.as_str(), "` did not run");
                push_failure(&mut self.failures, message);
            },
        }
        assert(self@.failures =~= before.failures + order_failures(before.order, a@, b@, first));
    }

    /// Checks that a task ran.
    fn check_ran(&mut self, task: &String, tail: &str)
        ensures
            final(self)@ == with_failures(
                old(self)@,
                failure_if(!has_run(old(self)@.order, task@), "task `"@ + task@ + tail@),
            ),
    {
        let ghost before = self@;
        let name = trim(task.as_str());
        if find_text(&self.order, name.as_str()).is_none() {
            let message = concat3("task `", task.as_str(), tail);
            push_failure(&mut self.failures, message);
        }
        assert(self@.failures =~= before.failures + failure_if(
            !has_run(before.order, task@),
            "task `"@ + task@ + tail@,
        ));
    }

    /// Checks that a task was the faulting one.
    fn check_faulting(&mut self, task: &String)
        ensures
            final(self)@ == with_failures(
                old(self)@,
                check_failures(old(self)@, Kind::TaskFaults(task@), None),
            ),
    {
        let ghost before = self@;
        let name = trim(task.as_str());
        let n = self.order.len();
        let ok = n > 0 && text_eq(self.order[n - 1].as_str(), name.as_str());
        if !ok {
            let message = concat3(
                "expected task `",
                task.as_str(),
                "` to be the faulting task",
            );
            push_failure(&mut self.failures, message);
        }
        assert(self@.failures =~= before.failures + check_failures(
            before,
            Kind::TaskFaults(task@),
            None,
        ));
    }

    /// Takes over what an execution gave.
    fn execute(&mut self, execution: Option<Execution>)
        ensures
            final(self)@ == executed_state(
                old(self)@,
                match execution {
                    Some(e) => Some(e@),
                    None => None,
                },
            ),
    {
        let ghost before = self@;
        self.executed = true;
        if self.definition.is_none() {
            push_failure(&mut self.failures, "no workflow definition".to_owned());
            assert(self@.failures =~= before.failures + seq!["no workflow definition"@]);
            return ;
        }
        match execution {
            None => {},
            Some(Execution::Undecodable(m)) => {
                let message = concat2("failed to deserialize definition: ", m.as_str());
                push_failure(&mut self.failures, message);
                assert(self@.failures =~= before.failures + seq![message@]);
            },
            Some(Execution::Invalid(codes)) => {
                let list = write_list(&codes);
                let message = concat2("definition invalid: ", list.as_str());
                push_failure(&mut self.failures, message);
                assert(self@.failures =~= before.failures + seq![message@]);
            },
            Some(Execution::Uncompilable(m)) => {
                let message = concat2("compile failed: ", m.as_str());
                push_failure(&mut self.failures, message);
                assert(self@.failures =~= before.failures + seq![message@]);
            },
            Some(Execution::Ran { result, order }) => {
                self.result = Some(result);
                self.order = order;
            },
        }
    }

    /// Takes a step. The caller has decoded the document of the step, and has
    /// executed the workflow where that was wanted.
    pub fn step(&mut self, kind: &StepKind, doc: Document, execution: Option<Execution>)
        ensures
            final(self)@ == stepped(
                old(self)@,
                kind@,
                document_view(doc),
                match execution {
                    Some(e) => Some(e@),
                    None => None,
                },
            ),
    {
        let ghost before = self@;
        match kind {
            StepKind::Definition => match doc {
                None => {},
                Some(Ok(v)) => {
                    self.definition = Some(v);
                },
                Some(Err(e)) => {
                    self.definition = Some(Value::Null);
                    let message = concat2("failed to parse workflow definition: ", e.as_str());
                    push_failure(&mut self.failures, message);
                    assert(self@.failures =~= before.failures + seq![message@]);
                },
            },
            StepKind::Input => match doc {
                None => {},
                Some(Ok(v)) => {
                    self.input = v;
                },
                Some(Err(_)) => {
                    self.input = Value::Null;
                },
            },
            StepKind::Execute => self.execute(execution),
            StepKind::Completes { output } => self.check_complete(*output, &doc),
            StepKind::Faults { error } => self.check_fault(*error, &doc),
            StepKind::Cancels => self.check_cancel(),
            StepKind::Properties(paths) => self.check_properties(paths),
            StepKind::Property(path, what) => self.check_property(path, *what, &doc),
            StepKind::RunsFirst(t) => self.check_end(t, true),
            StepKind::RunsLast(t) => self.check_end(t, false),
            StepKind::RunsBefore(a, b) => self.check_order(a, b, true),
            StepKind::RunsAfter(a, b) => self.check_order(a, b, false),
            StepKind::TaskCompletes(t) => {
                self.check_ran(t, "` did not complete");
            },
            StepKind::TaskFaults(t) => self.check_faulting(t),
            StepKind::TaskCancels(t) => {
                self.check_ran(t, "` did not run");
            },
            StepKind::Ignored => {
                assert(before.failures + Seq::<Seq<char>>::empty() =~= before.failures);
            },
        }
    }

    /// Whether the step of a scenario has to be followed by an execution.
    pub fn wants(&self, step: &Step) -> (r: bool)
        ensures
            r == (kind_of(trimmed(step@.text)) == Kind::Execute && self@.definition is Some),
    {
        let kind = classify_step(step.text.as_str());
        self.wants_execution(&kind)
    }

    /// Takes the step of a scenario: what its text asks, with the document that is
    /// read from the text under it. The caller has executed the workflow where that
    /// was wanted.
    pub fn take(&mut self, step: &Step, execution: Option<Execution>)
        ensures
            final(self)@ == stepped(
                old(self)@,
                kind_of(trimmed(step@.text)),
                document_of(step@.doc_string),
                match execution {
                    Some(e) => Some(e@),
                    None => None,
                },
            ),
    {
        let kind = classify_step(step.text.as_str());
        let doc = read_document(&step.doc_string);
        self.step(&kind, doc, execution);
    }

    /// The verdict on a scenario after its last step.
    pub fn finish(&self, feature: &str, name: &str) -> (r: ScenarioResult)
        ensures
            r@ == verdict(feature@, name@, self@.failures),
    {
        if self.failures.len() == 0 {
            ScenarioResult {
                feature: feature.to_owned(),
                name: name.to_owned(),
                status: ScenarioStatus::Pass,
                message: None,
            }
        } else {
            let message = join(&self.failures, "; ");
            ScenarioResult {
                feature: feature.to_owned(),
                name: name.to_owned(),
                status: ScenarioStatus::Fail,
                message: Some(message),
            }
        }
    }
}

/// No step takes a failure back, so a scenario that failed once stays failed.
pub proof fn law_failures_stay(
    st: RunModel,
    kind: Kind,
    doc: DocumentModel,
    execution: Option<ExecutionModel>,
)
    ensures
        st.failures.is_prefix_of(stepped(st, kind, doc, execution).failures),
{
}

/// A step that only checks changes nothing but the failures.
pub proof fn law_checks_only_add_failures(
    st: RunModel,
    kind: Kind,
    doc: DocumentModel,
    execution: Option<ExecutionModel>,
)
    requires
        !(kind is Definition),
        !(kind is Input),
        !(kind is Execute),
    ensures
        (RunModel { failures: st.failures, ..stepped(st, kind, doc, execution) }) == st,
{
}

// ---------------------------------------------------------------------------
// Reports
// ---------------------------------------------------------------------------

/// The verdict on a scenario.
#[derive(Debug, Clone, Copy, PartialEq, Eq, Structural)]
pub enum ScenarioStatus {
    Pass,
    Fail,
    Skip,
}

/// The result of a scenario.
#[derive(Debug)]
pub struct ScenarioResult {
    /// The name of the feature.
    pub feature: String,
    /// The name of the scenario.
    pub name: String,
    /// The verdict.
    pub status: ScenarioStatus,
    /// The reason for a failure or a skip.
    pub message: Option<String>,
}

/// The model of a [`ScenarioResult`].
pub ghost struct ResultModel {
    pub feature: Seq<char>,
    pub name: Seq<char>,
    pub status: ScenarioStatus,
    pub message: Option<Seq<char>>,
}

impl View for ScenarioResult {
    type V = ResultModel;

    open spec fn view(&self) -> ResultModel {
        ResultModel {
            feature: self.feature@,
            name: self.name@,
            status: self.status,
            message: opt_view(self.message),
        }
    }
}

/// The verdict on a scenario with its failures.
pub open spec fn verdict(
    feature: Seq<char>,
    name: Seq<char>,
    failures: Seq<Seq<char>>,
) -> ResultModel {
    if failures.len() == 0 {
        ResultModel { feature, name, status: ScenarioStatus::Pass, message: None }
    } else {
        ResultModel {
            feature,
            name,
            status: ScenarioStatus::Fail,
            message: Some(joined(failures, "; "@)),
        }
    }
}

/// The result of a scenario that needs the network and is left out.
pub fn skipped_scenario(feature: &str, name: &str) -> (r: ScenarioResult)
    ensures
        r@ == (ResultModel {
            feature: feature@,
            name: name@,
            status: ScenarioStatus::Skip,
            message: Some("network-dependent scenario skipped"@),
        }),
{
    ScenarioResult {
        feature: feature.to_owned(),
        name: name.to_owned(),
        status: ScenarioStatus::Skip,
        message: Some("network-dependent scenario skipped".to_owned()),
    }
}

/// The result that stands for a feature file that could not be read.
pub fn unreadable_feature(file: &str, cause: &str) -> (r: ScenarioResult)
    ensures
        r@ == (ResultModel {
            feature: file@,
            name: "<parse error>"@,
            status: ScenarioStatus::Fail,
            message: Some(cause@),
        }),
{
    ScenarioResult {
        feature: file.to_owned(),
        name: "<parse error>".to_owned(),
        status: ScenarioStatus::Fail,
        message: Some(cause.to_owned()),
    }
}

/// A conformance report.
#[derive(Debug)]
pub struct ConformanceReport {
    /// The results.
    pub scenarios: Vec<ScenarioResult>,
    /// The number of passes.
    pub passes: usize,
    /// The number of failures.
    pub failures: usize,
    /// The number of skips.
    pub skips: usize,
    /// The version of the test kit.
    pub ctk_version: Option<String>,
}

/// The models of a list of results.
pub open spec fn result_views(results: Seq<ScenarioResult>) -> Seq<ResultModel> {
    results.map_values(|r: ScenarioResult| r@)
}

/// The number of results with a verdict.
pub open spec fn count_of(results: Seq<ResultModel>, status: ScenarioStatus) -> nat
    decreases results.len(),
{
    if results.len() == 0 {
        0
    } else {
        count_of(results.drop_last(), status) + (if results.last().status == status {
            1nat
        } else {
            0
        })
    }
}

/// Whether the counts of a report are those of its results.
pub open spec fn counts_hold(r: ConformanceReport) -> bool {
    let results = result_views(r.scenarios@);
    &&& r.passes == count_of(results, ScenarioStatus::Pass)
    &&& r.failures == count_of(results, ScenarioStatus::Fail)
    &&& r.skips == count_of(results, ScenarioStatus::Skip)
}

/// Every result has one of the three verdicts.
pub proof fn law_counts_add_up(results: Seq<ResultModel>)
    ensures
        count_of(results, ScenarioStatus::Pass) + count_of(results, ScenarioStatus::Fail)
            + count_of(results, ScenarioStatus::Skip) == results.len(),
    decreases results.len(),
{
    if results.len() > 0 {
        law_counts_add_up(results.drop_last());
    }
}

impl Default for ConformanceReport {
    fn default() -> (r: Self)
        ensures
            counts_hold(r),
            r.scenarios@.len() == 0,
            r.ctk_version is None,
    {
        let r = Self {
            scenarios: Vec::new(),
            passes: 0,
            failures: 0,
            skips: 0,
            ctk_version: None,
        };
        assert(result_views(r.scenarios@) =~= Seq::empty());
        r
    }
}

impl ConformanceReport {
    /// The number of results.
    pub fn total(&self) -> (r: usize)
        ensures
            r == self.scenarios@.len(),
    {
        self.scenarios.len()
    }

    /// Whether any scenario failed.
    pub fn has_failures(&self) -> (r: bool)
        ensures
            r == (self.failures > 0),
    {
        self.failures > 0
    }

    /// Adds a result and counts it.
    pub fn record(&mut self, result: ScenarioResult)
        requires
            counts_hold(*old(self)),
        ensures
            counts_hold(*final(self)),
            result_views(final(self).scenarios@) == result_views(old(self).scenarios@).push(
                result@,
            ),
            final(self).ctk_version == old(self).ctk_version,
    {
        let ghost before = result_views(self.scenarios@);
        let status = result.status;
        self.scenarios.push(result);
        let n = self.scenarios.len();
        proof {
            let after = result_views(self.scenarios@);
            assert(after =~= before.push(result@));
            assert(after.drop_last() =~= before);
            law_counts_add_up(before);
        }
        match status {
            ScenarioStatus::Pass => {
                self.passes = self.passes + 1;
            },
            ScenarioStatus::Fail => {
                self.failures = self.failures + 1;
            },
            ScenarioStatus::Skip => {
                self.skips = self.skips + 1;
            },
        }
    }
}

} // verus!
