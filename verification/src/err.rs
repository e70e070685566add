//! Typed errors of the notebook: every failure surfaces as one of these
//! kinds, and none is swallowed or retried by the library itself.

use vstd::prelude::*;

verus! {

/// What went wrong.
#[derive(Debug, Clone, Copy, PartialEq, Eq, Structural)]
pub enum ErrorKind {
    /// A source file could not be decoded or read; fatal to a whole load.
    DecodeFailure,
    /// Title and body were both empty after an edit; the note is refused.
    EmptyNote,
    /// The external editor failed to run or exited unsuccessfully.
    EditorFailure,
    /// An edit query matched no note, or more than one.
    AmbiguousTarget,
    /// A file-system operation failed; fatal to the current command.
    IOFailure,
}

/// An error with its kind and a human-readable message.
#[derive(Debug, Clone)]
pub struct Error {
    pub kind: ErrorKind,
    pub message: String,
}

impl Error {
    pub fn new(kind: ErrorKind, message: &str) -> (r: Error)
        ensures
            r.kind == kind,
            r.message@ == message@,
    {
        Error { kind, message: String::from_str(message) }
    }

    /// The message, for display by a caller.
    pub fn describe(&self) -> (r: String)
        ensures
            r@ == self.message@,
    {
        self.message.clone()
    }
}

} // verus!
