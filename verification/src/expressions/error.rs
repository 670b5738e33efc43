//! Errors of the expression language.
use crate::text::{concat2, concat3, decimal, usize_text};
use crate::value::to_string;
use vstd::prelude::*;

verus! {

/// An error produced while lexing, parsing or evaluating an expression.
#[derive(Debug)]
pub enum ExpressionError {
    /// The expression could not be tokenized.
    Lex { pos: usize, message: String },
    /// The expression could not be parsed.
    Parse { pos: usize, message: String },
    /// Evaluation failed.
    Eval { message: String },
    /// A type mismatch or an unsupported operation.
    TypeError { message: String },
    /// The function is not part of the language.
    UnsupportedFunction { name: String },
}

/// The model of an [`ExpressionError`].
pub ghost enum Failure {
    Lex { pos: int, message: Seq<char> },
    Parse { pos: int, message: Seq<char> },
    Eval { message: Seq<char> },
    TypeError { message: Seq<char> },
    UnsupportedFunction { name: Seq<char> },
}

impl View for ExpressionError {
    type V = Failure;

    open spec fn view(&self) -> Failure {
        match self {
            ExpressionError::Lex { pos, message } => Failure::Lex {
                pos: *pos as int,
                message: message@,
            },
            ExpressionError::Parse { pos, message } => Failure::Parse {
                pos: *pos as int,
                message: message@,
            },
            ExpressionError::Eval { message } => Failure::Eval { message: message@ },
            ExpressionError::TypeError { message } => Failure::TypeError { message: message@ },
            ExpressionError::UnsupportedFunction { name } => Failure::UnsupportedFunction {
                name: name@,
            },
        }
    }
}

/// The displayed text of a failure.
pub open spec fn failure_text(f: Failure) -> Seq<char> {
    match f {
        Failure::Lex { pos, message } => "lex error at byte "@ + decimal(pos as nat) + ": "@
            + message,
        Failure::Parse { pos, message } => "parse error at byte "@ + decimal(pos as nat) + ": "@
            + message,
        Failure::Eval { message } => "eval error: "@ + message,
        Failure::TypeError { message } => "type error: "@ + message,
        Failure::UnsupportedFunction { name } => "unsupported function `"@ + name + "`"@,
    }
}

impl ExpressionError {
    /// A lexical error at a position.
    pub fn lex(pos: usize, message: &str) -> (r: Self)
        ensures
            r@ == (Failure::Lex { pos: pos as int, message: message@ }),
    {
        Self::Lex { pos, message: message.to_owned() }
    }

    /// A parse error at a position.
    pub fn parse(pos: usize, message: &str) -> (r: Self)
        ensures
            r@ == (Failure::Parse { pos: pos as int, message: message@ }),
    {
        Self::Parse { pos, message: message.to_owned() }
    }

    /// An evaluation error.
    pub fn eval(message: &str) -> (r: Self)
        ensures
            r@ == (Failure::Eval { message: message@ }),
    {
        Self::Eval { message: message.to_owned() }
    }

    /// A type error.
    pub fn type_error(message: &str) -> (r: Self)
        ensures
            r@ == (Failure::TypeError { message: message@ }),
    {
        Self::TypeError { message: message.to_owned() }
    }

    /// The displayed text.
    pub fn to_string(&self) -> (r: String)
        ensures
            r@ == failure_text(self@),
    {
        match self {
            ExpressionError::Lex { pos, message } => {
                let at = usize_text(*pos);
                let mut out = concat3("lex error at byte ", at.as_str(), ": ");
                out.append(message.as_str());
                out
            },
            ExpressionError::Parse { pos, message } => {
                let at = usize_text(*pos);
                let mut out = concat3("parse error at byte ", at.as_str(), ": ");
                out.append(message.as_str());
                out
            },
            ExpressionError::Eval { message } => concat2("eval error: ", message.as_str()),
            ExpressionError::TypeError { message } => concat2("type error: ", message.as_str()),
            ExpressionError::UnsupportedFunction { name } => concat3(
                "unsupported function `",
                name.as_str(),
                "`",
            ),
        }
    }
}

} // verus!
