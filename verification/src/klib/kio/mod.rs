//! Byte sinks and the codecs that feed them.
use vstd::prelude::*;

pub mod codec;
pub mod write;

verus! {

/// What went wrong in a read or a write.
#[derive(Clone, Copy, PartialEq, Eq, Structural, Debug)]
pub enum ErrorKind {
    StorageFull,
    OutOfMemory,
    InvalidData,
}

/// An error of a read or a write, by its kind.
#[derive(Clone, Copy, PartialEq, Eq, Structural, Debug)]
pub struct Error {
    kind: ErrorKind,
}

impl Error {
    /// The error of the given kind.
    pub fn new(kind: ErrorKind) -> (r: Self)
        ensures
            r.spec_kind() == kind,
    {
        Error { kind }
    }

    /// The kind of the error.
    pub closed spec fn spec_kind(&self) -> ErrorKind {
        self.kind
    }

    /// The kind of the error.
    pub fn kind(&self) -> (r: ErrorKind)
        ensures
            r == self.spec_kind(),
    {
        self.kind
    }
}

impl From<ErrorKind> for Error {
    fn from(kind: ErrorKind) -> (r: Self) {
        Error { kind }
    }
}

impl vstd::std_specs::convert::FromSpecImpl<ErrorKind> for Error {
    open spec fn obeys_from_spec() -> bool {
        true
    }

    closed spec fn from_spec(kind: ErrorKind) -> Error {
        Error { kind }
    }
}

} // verus!
