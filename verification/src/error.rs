//! Errors that a request can end in.

use vstd::prelude::*;
use vstd::string::StringExecFns;

verus! {

/// Why a request was turned down.
#[derive(Debug, Clone, PartialEq, Eq)]
pub enum AppError {
    /// The submitted vote bitmaps fail structural validation. The client
    /// sent them wrong; the server does not retry.
    MalformedPayload,
    /// Something inside the server failed; the text says what.
    InternalError(String),
}

impl AppError {
    /// The HTTP status code that reports this error: 400 for a malformed
    /// payload, 500 for an internal error.
    pub open spec fn spec_status(&self) -> u16 {
        match self {
            AppError::MalformedPayload => 400,
            AppError::InternalError(_) => 500,
        }
    }

    /// The text that reports this error.
    pub open spec fn spec_message(&self) -> Seq<char> {
        match self {
            AppError::MalformedPayload => "Malformed payload"@,
            AppError::InternalError(text) => "Internal error: "@ + text@,
        }
    }

    /// The text that reports this error.
    pub fn message(&self) -> (text: String)
        ensures
            text@ == self.spec_message(),
    {
        match self {
            AppError::MalformedPayload => String::from_str("Malformed payload"),
            AppError::InternalError(text) => String::from_str("Internal error: ").concat(
                text.as_str(),
            ),
        }
    }

    /// What is sent back for this error: its status code and its text.
    pub fn into_response(self) -> (reply: (u16, String))
        ensures
            reply.0 == self.spec_status(),
            reply.1@ == self.spec_message(),
    {
        (self.status(), self.message())
    }

    /// The HTTP status code that reports this error.
    pub fn status(&self) -> (code: u16)
        ensures
            code == self.spec_status(),
    {
        match self {
            AppError::MalformedPayload => 400,
            AppError::InternalError(_) => 500,
        }
    }
}

/// Why no registry could be taken over from the distribution point.
#[derive(Debug, Clone, Copy, PartialEq, Eq, Structural)]
pub enum LoadError {
    /// The snapshot could not be fetched.
    FetchError,
    /// The snapshot was fetched but does not hold a valid registry.
    CorruptSnapshot,
}

} // verus!
