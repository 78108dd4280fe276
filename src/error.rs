//! Errors reported by every fallible operation of the library.

use vstd::prelude::*;

verus! {

/// The kind of an error. Each kind maps onto an HTTP status code.
#[derive(PartialEq, Eq, Structural, Clone, Copy, Debug)]
pub enum ErrorCode {
    /// A bad syntax was used (400).
    BadRequest,
    /// Permissions do not allow this to happen (403).
    Forbidden,
    /// A resource was not found (404).
    NotFound,
    /// The requested resource is not acceptable (406).
    NotAcceptable,
    /// Present data made the request fail (409).
    Conflict,
    /// There was an invalid range (416).
    BadRange,
    /// Something failed inside a driver (500).
    Internal,
    /// The feature has not been implemented (501).
    NotImplemented,
}

/// The HTTP status code of an error kind.
pub open spec fn status_of(code: ErrorCode) -> u16 {
    match code {
        ErrorCode::BadRequest => 400,
        ErrorCode::Forbidden => 403,
        ErrorCode::NotFound => 404,
        ErrorCode::NotAcceptable => 406,
        ErrorCode::Conflict => 409,
        ErrorCode::BadRange => 416,
        ErrorCode::Internal => 500,
        ErrorCode::NotImplemented => 501,
    }
}

impl ErrorCode {
    /// The HTTP status code of this kind.
    pub fn status(&self) -> (r: u16)
        ensures
            r == status_of(*self),
    {
        match self {
            ErrorCode::BadRequest => 400,
            ErrorCode::Forbidden => 403,
            ErrorCode::NotFound => 404,
            ErrorCode::NotAcceptable => 406,
            ErrorCode::Conflict => 409,
            ErrorCode::BadRange => 416,
            ErrorCode::Internal => 500,
            ErrorCode::NotImplemented => 501,
        }
    }
}

/// What an error holds: its kind, a message and an optional hint on how to
/// avoid it.
pub struct ErrorView {
    pub code: ErrorCode,
    pub message: Seq<char>,
    pub hint: Option<Seq<char>>,
}

/// An error with a code, a message and an optional hint telling the user how
/// to fix it.
#[derive(PartialEq, Debug)]
pub struct Error {
    code: ErrorCode,
    message: String,
    hint: Option<String>,
}

/// The view of an optional string.
pub open spec fn opt_view(s: Option<String>) -> Option<Seq<char>> {
    match s {
        Some(t) => Some(t@),
        None => None,
    }
}

fn clone_opt(s: &Option<String>) -> (r: Option<String>)
    ensures
        opt_view(r) == opt_view(*s),
{
    match s {
        Some(t) => Some(t.clone()),
        None => None,
    }
}

impl View for Error {
    type V = ErrorView;

    closed spec fn view(&self) -> ErrorView {
        ErrorView { code: self.code, message: self.message@, hint: opt_view(self.hint) }
    }
}

impl Error {
    /// Creates an error from its three parts.
    pub fn new(code: ErrorCode, message: String, hint: Option<String>) -> (r: Error)
        ensures
            r@ == (ErrorView { code, message: message@, hint: opt_view(hint) }),
    {
        Error { code, message, hint }
    }

    /// The code of the error.
    pub fn code(&self) -> (r: ErrorCode)
        ensures
            r == self@.code,
    {
        self.code
    }

    /// The message of the error.
    pub fn message(&self) -> (r: String)
        ensures
            r@ == self@.message,
    {
        self.message.clone()
    }

    /// The hint of the error, if it has one.
    pub fn hint(&self) -> (r: Option<String>)
        ensures
            opt_view(r) == self@.hint,
    {
        clone_opt(&self.hint)
    }

    /// A failed validation: `BadRequest` with a hint.
    pub fn validation(message: String, hint: String) -> (r: Error)
        ensures
            r@ == (ErrorView { code: ErrorCode::BadRequest, message: message@, hint: Some(hint@) }),
    {
        Error { code: ErrorCode::BadRequest, message, hint: Some(hint) }
    }

    /// A failure inside a driver or a broken driver contract: `Internal`, no
    /// hint.
    pub fn internal(message: String) -> (r: Error)
        ensures
            r@ == (ErrorView { code: ErrorCode::Internal, message: message@, hint: None }),
    {
        Error { code: ErrorCode::Internal, message, hint: None }
    }

    /// Something that is not implemented: `NotImplemented`, no hint.
    pub fn unimplemented(message: String) -> (r: Error)
        ensures
            r@ == (ErrorView { code: ErrorCode::NotImplemented, message: message@, hint: None }),
    {
        Error { code: ErrorCode::NotImplemented, message, hint: None }
    }

    /// A missing resource: `NotFound`, no hint.
    pub fn not_found(message: String) -> (r: Error)
        ensures
            r@ == (ErrorView { code: ErrorCode::NotFound, message: message@, hint: None }),
    {
        Error { code: ErrorCode::NotFound, message, hint: None }
    }

    /// An error with a code, a message and a hint.
    pub fn with_hint(code: ErrorCode, message: String, hint: String) -> (r: Error)
        ensures
            r@ == (ErrorView { code, message: message@, hint: Some(hint@) }),
    {
        Error { code, message, hint: Some(hint) }
    }
}

} // verus!
