//! The error taxonomy of the object store.
use vstd::prelude::*;

verus! {

/// What went wrong, as a closed set of error classes: a digest with no stored
/// object, a store entry whose bytes are damaged, a body that breaks its
/// variant's grammar, a header naming an unrecognised kind, a graph walk that
/// met an object of the wrong kind, and the two checkout destination failures.
#[derive(Clone, Copy, PartialEq, Eq, Structural, Debug)]
pub enum WyagErrorKind {
    NotFound,
    CorruptObject,
    Format,
    UnknownKind,
    TypeMismatch,
    DestinationNotEmpty,
    DestinationNotDirectory,
    Other,
}

/// An error carrying its class, a human-readable message, and optionally the
/// text of an underlying failure.
#[derive(Debug)]
pub struct WyagError {
    pub kind: WyagErrorKind,
    pub message: String,
    pub inner: Option<String>,
}

impl WyagError {
    /// A general error with a message and no underlying cause.
    pub fn new(message: &str) -> (r: WyagError)
        ensures
            r.kind == WyagErrorKind::Other,
            r.message@ == message@,
            r.inner is None,
    {
        WyagError { kind: WyagErrorKind::Other, message: message.to_owned(), inner: None }
    }

    /// A general error wrapping the text of an underlying failure.
    pub fn new_with_error(message: &str, err: &str) -> (r: WyagError)
        ensures
            r.kind == WyagErrorKind::Other,
            r.message@ == message@,
            r.inner matches Some(e) && e@ == err@,
    {
        WyagError {
            kind: WyagErrorKind::Other,
            message: message.to_owned(),
            inner: Some(err.to_owned()),
        }
    }

    /// An error of a chosen class.
    pub fn with_kind(kind: WyagErrorKind, message: &str) -> (r: WyagError)
        ensures
            r.kind == kind,
            r.message@ == message@,
            r.inner is None,
    {
        WyagError { kind, message: message.to_owned(), inner: None }
    }

    /// The text of this error, for callers that display it.
    pub fn describe(&self) -> (r: &str)
        ensures
            r@ == self.message@,
    {
        self.message.as_str()
    }
}

} // verus!
