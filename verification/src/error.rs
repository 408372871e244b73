//! The error that the program reports: a message, or a failed input/output
//! operation held as plain values.

use vstd::prelude::*;
use vstd::string::StringExecFns;

verus! {

/// A message for the user, or a failed input/output operation: what was
/// being done, the system's description of the failure and whether the
/// reader of the output went away.
#[derive(Debug)]
pub enum AppError {
    Message(String),
    Io { context: &'static str, detail: String, broken_pipe: bool },
}

/// The text of an error: the message, or the context and the system's
/// description joined by a colon.
pub open spec fn error_text(e: AppError) -> Seq<char> {
    match e {
        AppError::Message(m) => m@,
        AppError::Io { context, detail, .. } => context@ + ": "@ + detail@,
    }
}

/// Whether an error is a message with the given text.
pub open spec fn is_message(e: AppError, text: Seq<char>) -> bool {
    e is Message && e->Message_0@ == text
}

impl AppError {
    /// A failed input/output operation.
    pub fn io(context: &'static str, detail: String, broken_pipe: bool) -> (e: AppError)
        ensures
            e == (AppError::Io { context, detail, broken_pipe }),
    {
        AppError::Io { context, detail, broken_pipe }
    }

    /// Whether the error is a write to an output whose reader went away.
    pub fn is_broken_pipe(&self) -> (r: bool)
        ensures
            r == (self is Io && self->broken_pipe),
    {
        match self {
            AppError::Io { broken_pipe, .. } => *broken_pipe,
            AppError::Message(_) => false,
        }
    }

    /// The text shown for the error.
    pub fn message(&self) -> (text: String)
        ensures
            text@ == error_text(*self),
    {
        match self {
            AppError::Message(message) => message.clone(),
            AppError::Io { context, detail, .. } => {
                let mut text = String::from_str(context);
                text.append(": ");
                text.append(detail.as_str());
                text
            },
        }
    }
}

} // verus!
