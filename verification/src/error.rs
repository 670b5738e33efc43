//! Errors of the runtime.
use crate::text::opt_view;
use vstd::prelude::*;

verus! {

/// The kind of a workflow error.
#[derive(Clone, Copy, PartialEq, Eq, Structural, Debug)]
pub enum ErrorKind {
    /// A call to an outside service failed.
    Communication,
    /// The runtime itself failed.
    Runtime,
    /// A document does not have the expected form.
    Schema,
    /// The execution was cancelled.
    Cancelled,
}

/// The standard types of problems.
#[derive(Clone, Copy, PartialEq, Eq, Structural, Debug)]
pub enum StandardErrorType {
    Communication,
    Runtime,
    Validation,
}

/// The description of a problem.
#[derive(Debug)]
pub struct ProblemDetails {
    /// The type of the problem.
    pub type_: StandardErrorType,
    /// What happened in this case.
    pub detail: Option<String>,
}

impl ProblemDetails {
    /// A problem of a standard type.
    pub fn standard(type_: StandardErrorType) -> (r: Self)
        ensures
            r.type_ == type_,
            r.detail is None,
    {
        Self { type_, detail: None }
    }

    /// The problem with a detail.
    pub fn with_detail(self, detail: String) -> (r: Self)
        ensures
            r.type_ == self.type_,
            r.detail == Some(detail),
    {
        Self { type_: self.type_, detail: Some(detail) }
    }
}

/// An error of the runtime.
#[derive(Debug)]
pub struct WorkflowError {
    pub kind: ErrorKind,
    pub problem: ProblemDetails,
}

/// Whether an error has a kind, a problem type and a detail.
pub open spec fn is_error(
    e: WorkflowError,
    kind: ErrorKind,
    type_: StandardErrorType,
    detail: Seq<char>,
) -> bool {
    &&& e.kind == kind
    &&& e.problem.type_ == type_
    &&& opt_view(e.problem.detail) == Some(detail)
}

impl WorkflowError {
    /// An error of a kind with a problem.
    pub fn new(kind: ErrorKind, problem: ProblemDetails) -> (r: Self)
        ensures
            r.kind == kind,
            r.problem == problem,
    {
        Self { kind, problem }
    }

    /// An error of a kind with a standard problem.
    pub fn standard(kind: ErrorKind, type_: StandardErrorType) -> (r: Self)
        ensures
            r.kind == kind,
            r.problem.type_ == type_,
            r.problem.detail is None,
    {
        Self { kind, problem: ProblemDetails::standard(type_) }
    }

    /// An error of a kind with a standard problem and a detail.
    pub fn detailed(kind: ErrorKind, type_: StandardErrorType, detail: String) -> (r: Self)
        ensures
            is_error(r, kind, type_, detail@),
    {
        Self { kind, problem: ProblemDetails::standard(type_).with_detail(detail) }
    }
}

} // verus!
