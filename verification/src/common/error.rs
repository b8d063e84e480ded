//! The errors of lexing, parsing, type checking and evaluation.
use vstd::prelude::*;
use crate::common::text::push_text;

verus! {

/// Every error that lexing, parsing, type checking or running a MiniImp or
/// MiniFun program may give.
#[derive(Debug, Clone)]
pub enum EvalError {
    UndefinedVariable(String),
    OutputVariableUndefined(String),
    ParseError(String),
    UnexpectedEndOfInput,
    TypeError(String),
    TypeCheckError(String),
}

/// An error with its text taken by view.
pub enum ErrorModel {
    UndefinedVariable(Seq<char>),
    OutputVariableUndefined(Seq<char>),
    ParseError(Seq<char>),
    UnexpectedEndOfInput,
    TypeError(Seq<char>),
    TypeCheckError(Seq<char>),
}

impl View for EvalError {
    type V = ErrorModel;

    open spec fn view(&self) -> ErrorModel {
        match self {
            EvalError::UndefinedVariable(s) => ErrorModel::UndefinedVariable(s@),
            EvalError::OutputVariableUndefined(s) => ErrorModel::OutputVariableUndefined(s@),
            EvalError::ParseError(s) => ErrorModel::ParseError(s@),
            EvalError::UnexpectedEndOfInput => ErrorModel::UnexpectedEndOfInput,
            EvalError::TypeError(s) => ErrorModel::TypeError(s@),
            EvalError::TypeCheckError(s) => ErrorModel::TypeCheckError(s@),
        }
    }
}

/// A result with its error taken by view.
pub open spec fn result_view<T>(r: Result<T, EvalError>) -> Result<T, ErrorModel> {
    match r {
        Ok(v) => Ok(v),
        Err(e) => Err(e@),
    }
}

/// The text that the error shows to a user.
pub open spec fn error_message(e: ErrorModel) -> Seq<char> {
    match e {
        ErrorModel::UndefinedVariable(name) =>
            "Runtime error: the variable '"@ + name + "' was used before it was assigned a value."@,
        ErrorModel::OutputVariableUndefined(name) =>
            "Runtime error: the program finished, but the output variable '"@ + name
                + "' was never assigned."@,
        ErrorModel::ParseError(m) => "Parse error: "@ + m,
        ErrorModel::TypeError(m) => "Type error: "@ + m,
        ErrorModel::TypeCheckError(m) => "Type checking error: "@ + m,
        ErrorModel::UnexpectedEndOfInput => "Parse error: unexpected end of input."@,
    }
}

impl EvalError {
    /// The text that the error shows to a user.
    pub fn message(&self) -> (r: String)
        ensures
            r@ == error_message(self@),
    {
        let mut s = String::new();
        match self {
            EvalError::UndefinedVariable(name) => {
                push_text(&mut s, "Runtime error: the variable '");
                push_text(&mut s, name.as_str());
                push_text(&mut s, "' was used before it was assigned a value.");
            },
            EvalError::OutputVariableUndefined(name) => {
                push_text(&mut s, "Runtime error: the program finished, but the output variable '");
                push_text(&mut s, name.as_str());
                push_text(&mut s, "' was never assigned.");
            },
            EvalError::ParseError(m) => {
                push_text(&mut s, "Parse error: ");
                push_text(&mut s, m.as_str());
            },
            EvalError::TypeError(m) => {
                push_text(&mut s, "Type error: ");
                push_text(&mut s, m.as_str());
            },
            EvalError::TypeCheckError(m) => {
                push_text(&mut s, "Type checking error: ");
                push_text(&mut s, m.as_str());
            },
            EvalError::UnexpectedEndOfInput => {
                push_text(&mut s, "Parse error: unexpected end of input.");
            },
        }
        assert(s@ =~= error_message(self@));
        s
    }
}

} // verus!
