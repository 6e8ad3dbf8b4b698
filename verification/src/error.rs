//! The error type shared by both conversion directions.

use vstd::prelude::*;

verus! {

/// Classifies a conversion failure.
#[derive(Clone, Copy, Debug, PartialEq, Eq, Structural)]
pub enum ErrorKind {
    /// Malformed markup or malformed structured-value text.
    Syntax,
    /// Invalid byte sequences during text decoding.
    Encoding,
    /// Writer failures and unexpected internal states.
    Unknown,
}

impl ErrorKind {
    /// A short name for the error kind.
    pub fn to_str(&self) -> (r: &'static str)
        ensures
            *self is Syntax ==> r@ == "parse"@,
            *self is Encoding ==> r@ == "encoding"@,
            *self is Unknown ==> r@ == "unknown"@,
    {
        match *self {
            ErrorKind::Syntax => "parse",
            ErrorKind::Encoding => "encoding",
            ErrorKind::Unknown => "unknown",
        }
    }
}

/// All possible errors that can occur when converting between XML and JSON.
#[derive(Debug)]
pub struct Error {
    details: String,
    desc: &'static str,
    kind: ErrorKind,
}

impl Error {
    /// Initialize a new `Error` with an `ErrorKind` and a detail message.
    pub fn new(kind: ErrorKind, detail: &str) -> (r: Error)
        ensures
            r.kind() == kind,
            r.details()@ == detail@,
    {
        let desc = kind.to_str();
        Error { kind, desc, details: detail.to_owned() }
    }

    /// The kind of this error.
    pub closed spec fn spec_kind(&self) -> ErrorKind {
        self.kind
    }

    /// The kind of this error.
    #[verifier::when_used_as_spec(spec_kind)]
    pub fn kind(&self) -> (r: ErrorKind)
        ensures
            r == self.kind(),
    {
        self.kind
    }

    /// The detail message of this error.
    pub closed spec fn spec_details(&self) -> String {
        self.details
    }

    /// The detail message of this error.
    #[verifier::when_used_as_spec(spec_details)]
    pub fn details(&self) -> (r: String)
        ensures
            r == self.details(),
    {
        self.details.clone()
    }
}

} // verus!
