//! Error types of the oracle.

use vstd::prelude::*;
use vstd::std_specs::cmp::PartialEqSpecImpl;
use vstd::std_specs::convert::FromSpecImpl;
use vstd::string::StringExecFns;
use crate::oracle_ser;

verus! {

/// Oracle errors, mostly wrappers around what went wrong underneath.
#[derive(Debug)]
pub enum ErrorKind {
    /// An error in the format of the JSON structures exchanged by the oracle
    Format(String),
    /// Store error
    Backend(String),
    /// IO Error
    IO,
    /// Error when contacting a data vendor through its API
    Vendor,
    /// Other
    GenericError(String),
    /// Nothing is stored under the key that was asked for
    NotFound(String),
    /// The batch was used after it had been committed
    BatchAlreadyClosed,
}

/// What an [`ErrorKind`] holds, as mathematical values.
pub enum ErrorKindView {
    Format(Seq<char>),
    Backend(Seq<char>),
    IO,
    Vendor,
    GenericError(Seq<char>),
    NotFound(Seq<char>),
    BatchAlreadyClosed,
}

impl View for ErrorKind {
    type V = ErrorKindView;

    open spec fn view(&self) -> ErrorKindView {
        match self {
            ErrorKind::Format(s) => ErrorKindView::Format(s@),
            ErrorKind::Backend(s) => ErrorKindView::Backend(s@),
            ErrorKind::IO => ErrorKindView::IO,
            ErrorKind::Vendor => ErrorKindView::Vendor,
            ErrorKind::GenericError(s) => ErrorKindView::GenericError(s@),
            ErrorKind::NotFound(s) => ErrorKindView::NotFound(s@),
            ErrorKind::BatchAlreadyClosed => ErrorKindView::BatchAlreadyClosed,
        }
    }
}

impl Clone for ErrorKind {
    fn clone(&self) -> (r: Self)
        ensures
            r@ == self@,
    {
        match self {
            ErrorKind::Format(s) => ErrorKind::Format(s.clone()),
            ErrorKind::Backend(s) => ErrorKind::Backend(s.clone()),
            ErrorKind::IO => ErrorKind::IO,
            ErrorKind::Vendor => ErrorKind::Vendor,
            ErrorKind::GenericError(s) => ErrorKind::GenericError(s.clone()),
            ErrorKind::NotFound(s) => ErrorKind::NotFound(s.clone()),
            ErrorKind::BatchAlreadyClosed => ErrorKind::BatchAlreadyClosed,
        }
    }
}

impl PartialEq for ErrorKind {
    fn eq(&self, other: &ErrorKind) -> (r: bool) {
        match (self, other) {
            (ErrorKind::Format(a), ErrorKind::Format(b)) => *a == *b,
            (ErrorKind::Backend(a), ErrorKind::Backend(b)) => *a == *b,
            (ErrorKind::IO, ErrorKind::IO) => true,
            (ErrorKind::Vendor, ErrorKind::Vendor) => true,
            (ErrorKind::GenericError(a), ErrorKind::GenericError(b)) => *a == *b,
            (ErrorKind::NotFound(a), ErrorKind::NotFound(b)) => *a == *b,
            (ErrorKind::BatchAlreadyClosed, ErrorKind::BatchAlreadyClosed) => true,
            _ => false,
        }
    }
}

impl PartialEqSpecImpl for ErrorKind {
    open spec fn obeys_eq_spec() -> bool {
        true
    }

    open spec fn eq_spec(&self, other: &ErrorKind) -> bool {
        self@ == other@
    }
}

impl ErrorKind {
    /// The text that [`Self::message`] gives for an error.
    pub open spec fn spec_message(e: ErrorKindView) -> Seq<char> {
        match e {
            ErrorKindView::Format(s) => "JSON format error: "@ + s,
            ErrorKindView::Backend(s) => "Oracle store error: "@ + s,
            ErrorKindView::IO => "I/O error"@,
            ErrorKindView::Vendor => "Vendor API error"@,
            ErrorKindView::GenericError(s) => "Generic error: "@ + s,
            ErrorKindView::NotFound(s) => "Not found: "@ + s,
            ErrorKindView::BatchAlreadyClosed => "Batch already closed"@,
        }
    }

    /// The error in words.
    pub fn message(&self) -> (r: String)
        ensures
            r@ == Self::spec_message(self@),
    {
        match self {
            ErrorKind::Format(s) => "JSON format error: ".to_owned().concat(s.as_str()),
            ErrorKind::Backend(s) => "Oracle store error: ".to_owned().concat(s.as_str()),
            ErrorKind::IO => "I/O error".to_owned(),
            ErrorKind::Vendor => "Vendor API error".to_owned(),
            ErrorKind::GenericError(s) => "Generic error: ".to_owned().concat(s.as_str()),
            ErrorKind::NotFound(s) => "Not found: ".to_owned().concat(s.as_str()),
            ErrorKind::BatchAlreadyClosed => "Batch already closed".to_owned(),
        }
    }
}

/// Error definition
#[derive(Debug)]
pub struct Error {
    /// What went wrong.
    pub inner: ErrorKind,
}

impl View for Error {
    type V = ErrorKindView;

    open spec fn view(&self) -> ErrorKindView {
        self.inner@
    }
}

impl Error {
    /// get kind
    pub fn kind(&self) -> (kind: ErrorKind)
        ensures
            kind@ == self@,
    {
        self.inner.clone()
    }

    /// get cause string: an error of the oracle has no cause beneath it
    pub fn cause_string(&self) -> (r: String)
        ensures
            r@ == "Unknown"@,
    {
        "Unknown".to_owned()
    }

    /// The error in words.
    pub fn message(&self) -> (r: String)
        ensures
            r@ == ErrorKind::spec_message(self@),
    {
        self.inner.message()
    }

    /// The store error that a record which does not decode is reported as.
    pub open spec fn spec_decode_failure(e: oracle_ser::ErrorView) -> ErrorKindView {
        ErrorKindView::Backend(oracle_ser::Error::spec_description(e))
    }

    /// The store error that a record which does not decode is reported as.
    pub fn decode_failure(error: &oracle_ser::Error) -> (e: Error)
        ensures
            e@ == Self::spec_decode_failure(error@),
    {
        Error { inner: ErrorKind::Backend(error.description()) }
    }

    /// The error for a key under which nothing is stored.
    pub fn not_found(what: String) -> (e: Error)
        ensures
            e@ == ErrorKindView::NotFound(what@),
    {
        Error { inner: ErrorKind::NotFound(what) }
    }

    /// The error for a failure of the store.
    pub fn backend(what: String) -> (e: Error)
        ensures
            e@ == ErrorKindView::Backend(what@),
    {
        Error { inner: ErrorKind::Backend(what) }
    }

    /// The error for the use of a batch after its commit.
    pub fn batch_closed() -> (e: Error)
        ensures
            e@ == ErrorKindView::BatchAlreadyClosed,
    {
        Error { inner: ErrorKind::BatchAlreadyClosed }
    }
}

impl Clone for Error {
    fn clone(&self) -> (r: Self)
        ensures
            r@ == self@,
    {
        Error { inner: self.inner.clone() }
    }
}

impl PartialEq for Error {
    fn eq(&self, other: &Error) -> (r: bool) {
        self.inner == other.inner
    }
}

impl PartialEqSpecImpl for Error {
    open spec fn obeys_eq_spec() -> bool {
        true
    }

    open spec fn eq_spec(&self, other: &Error) -> bool {
        self@ == other@
    }
}

impl From<ErrorKind> for Error {
    fn from(kind: ErrorKind) -> (e: Error) {
        Error { inner: kind }
    }
}

impl FromSpecImpl<ErrorKind> for Error {
    open spec fn obeys_from_spec() -> bool {
        true
    }

    open spec fn from_spec(kind: ErrorKind) -> Error {
        Error { inner: kind }
    }
}

} // verus!
