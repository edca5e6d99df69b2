//! Error kinds and the status codes that report them.

use vstd::prelude::*;
use crate::log::{log_line, log_text, LogLevel};

verus! {

/// What went wrong, independent of the wording of the message.
#[derive(Clone, Copy, Debug, PartialEq, Eq, Structural)]
pub enum ErrorKind {
    /// A malformed request line, header or path.
    Parse,
    /// A registration that would give a node both static and variable children.
    RouteConflict,
    /// An unknown path segment, method or resource.
    NotFound,
    /// A rejected source address or credential pair.
    Unauthorized,
    /// A second binding of a method or resource on one node.
    Conflict,
    /// A method outside GET, POST, PUT and DELETE.
    NotImplemented,
    /// A failed accept, read, write or handshake.
    Transport,
    /// A response that could not be built.
    Internal,
}

impl ErrorKind {
    pub open spec fn spec_status(self) -> u16 {
        match self {
            ErrorKind::Parse => 400,
            ErrorKind::RouteConflict => 500,
            ErrorKind::NotFound => 404,
            ErrorKind::Unauthorized => 401,
            ErrorKind::Conflict => 409,
            ErrorKind::NotImplemented => 501,
            ErrorKind::Transport => 500,
            ErrorKind::Internal => 500,
        }
    }

    /// The HTTP status code that reports this kind of error to a client.
    pub fn status(self) -> (r: u16)
        ensures
            r == self.spec_status(),
    {
        match self {
            ErrorKind::Parse => 400,
            ErrorKind::RouteConflict => 500,
            ErrorKind::NotFound => 404,
            ErrorKind::Unauthorized => 401,
            ErrorKind::Conflict => 409,
            ErrorKind::NotImplemented => 501,
            ErrorKind::Transport => 500,
            ErrorKind::Internal => 500,
        }
    }
}

/// An error with its kind and a human-readable message.
#[derive(Debug)]
pub struct ServerError {
    pub kind: ErrorKind,
    pub error: String,
}

pub type ServerResult<T> = Result<T, ServerError>;

impl ServerError {
    pub fn new(kind: ErrorKind, error: &str) -> (r: Self)
        ensures
            r.kind == kind,
            r.error@ == error@,
    {
        ServerError { kind, error: String::from_str(error) }
    }

    /// An internal error.
    pub fn err(error: &str) -> (r: Self)
        ensures
            r.kind == ErrorKind::Internal,
            r.error@ == error@,
    {
        ServerError::new(ErrorKind::Internal, error)
    }

    pub fn code(&self) -> (r: u16)
        ensures
            r == self.kind.spec_status(),
    {
        self.kind.status()
    }

    /// The line that reports this error in the log; emitting it is the caller's part.
    pub fn log(&self) -> (r: String)
        ensures
            r@ == log_text(LogLevel::Error, self.error@),
    {
        log_line(LogLevel::Error, self.error.as_str())
    }
}

} // verus!
