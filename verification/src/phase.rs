//! The status phases of workflows and tasks.
use crate::text::text_eq;
use crate::value::to_string;
use vstd::prelude::*;

verus! {

/// A status phase of a workflow or a task.
#[derive(Clone, Copy, PartialEq, Eq, Structural, Debug, Hash)]
pub enum Phase {
    /// Initiated and pending execution.
    Pending,
    /// In progress.
    Running,
    /// Paused, awaiting events or a time interval.
    Waiting,
    /// Paused by a user.
    Suspended,
    /// Terminated before completion.
    Cancelled,
    /// Encountered an error.
    Faulted,
    /// Ran to completion.
    Completed,
}

/// The name of a phase.
pub open spec fn phase_text(p: Phase) -> Seq<char> {
    match p {
        Phase::Pending => "pending"@,
        Phase::Running => "running"@,
        Phase::Waiting => "waiting"@,
        Phase::Suspended => "suspended"@,
        Phase::Cancelled => "cancelled"@,
        Phase::Faulted => "faulted"@,
        Phase::Completed => "completed"@,
    }
}

/// The phase with a name.
pub open spec fn phase_named(s: Seq<char>) -> Option<Phase> {
    if s == "pending"@ {
        Some(Phase::Pending)
    } else if s == "waiting"@ {
        Some(Phase::Waiting)
    } else if s == "suspended"@ {
        Some(Phase::Suspended)
    } else if s == "cancelled"@ {
        Some(Phase::Cancelled)
    } else if s == "faulted"@ {
        Some(Phase::Faulted)
    } else if s == "completed"@ {
        Some(Phase::Completed)
    } else if s == "running"@ {
        Some(Phase::Running)
    } else {
        None
    }
}

/// The names of the phases are all different.
proof fn lemma_phase_texts(p: Phase, q: Phase)
    requires
        p != q,
    ensures
        phase_text(p) != phase_text(q),
{
    reveal_strlit("pending");
    reveal_strlit("running");
    reveal_strlit("waiting");
    reveal_strlit("suspended");
    reveal_strlit("cancelled");
    reveal_strlit("faulted");
    reveal_strlit("completed");
    let (a, b) = (phase_text(p), phase_text(q));
    assert(a.len() != b.len() || a[0] != b[0] || a[1] != b[1]);
}

/// The phase with the name of a phase is that phase.
pub proof fn law_phase_round_trip(p: Phase)
    ensures
        phase_named(phase_text(p)) == Some(p),
{
    assert forall|q: Phase| p != q implies phase_text(p) != #[trigger] phase_text(q) by {
        lemma_phase_texts(p, q);
    }
    assert(phase_text(p) == phase_text(Phase::Pending) ==> p == Phase::Pending);
    assert(phase_text(p) == phase_text(Phase::Waiting) ==> p == Phase::Waiting);
    assert(phase_text(p) == phase_text(Phase::Suspended) ==> p == Phase::Suspended);
    assert(phase_text(p) == phase_text(Phase::Cancelled) ==> p == Phase::Cancelled);
    assert(phase_text(p) == phase_text(Phase::Faulted) ==> p == Phase::Faulted);
    assert(phase_text(p) == phase_text(Phase::Completed) ==> p == Phase::Completed);
}

impl Phase {
    /// Whether the phase is terminal.
    pub fn is_terminal(self) -> (r: bool)
        ensures
            r == (self == Phase::Cancelled || self == Phase::Faulted || self == Phase::Completed),
    {
        matches!(self, Phase::Cancelled | Phase::Faulted | Phase::Completed)
    }

    /// The name of the phase.
    pub fn to_string(&self) -> (r: String)
        ensures
            r@ == phase_text(*self),
    {
        match self {
            Phase::Pending => "pending".to_owned(),
            Phase::Running => "running".to_owned(),
            Phase::Waiting => "waiting".to_owned(),
            Phase::Suspended => "suspended".to_owned(),
            Phase::Cancelled => "cancelled".to_owned(),
            Phase::Faulted => "faulted".to_owned(),
            Phase::Completed => "completed".to_owned(),
        }
    }

    /// The phase with a name.
    pub fn from_name(name: &str) -> (r: Option<Phase>)
        ensures
            r == phase_named(name@),
    {
        if text_eq(name, "pending") {
            Some(Phase::Pending)
        } else if text_eq(name, "waiting") {
            Some(Phase::Waiting)
        } else if text_eq(name, "suspended") {
            Some(Phase::Suspended)
        } else if text_eq(name, "cancelled") {
            Some(Phase::Cancelled)
        } else if text_eq(name, "faulted") {
            Some(Phase::Faulted)
        } else if text_eq(name, "completed") {
            Some(Phase::Completed)
        } else if text_eq(name, "running") {
            Some(Phase::Running)
        } else {
            None
        }
    }
}

} // verus!
