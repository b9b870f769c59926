//! Error definitions.
use vstd::prelude::*;

verus! {

/// What was wrong with an input.
#[derive(Clone, Copy, Debug, PartialEq, Eq, Structural)]
pub enum ErrorKind {
    /// A configuration value is invalid (a window size of 0, say).
    InvalidConfig,
    /// An input is too short (a sketch with too few chunks, an empty document).
    ShortInput,
    /// An argument lies outside its range (a radius outside `[0, 1]`).
    ArgumentOutOfRange,
}

/// Error used when the input argument is invalid.
#[derive(Clone, Debug)]
pub struct InputError {
    kind: ErrorKind,
    msg: &'static str,
}

impl InputError {
    /// Creates an error.
    pub fn new(kind: ErrorKind, msg: &'static str) -> (r: Self)
        ensures
            r.spec_kind() == kind,
    {
        InputError { kind, msg }
    }

    /// What was wrong.
    pub closed spec fn spec_kind(&self) -> ErrorKind {
        self.kind
    }

    /// Gets what was wrong.
    pub fn kind(&self) -> (r: ErrorKind)
        ensures
            r == self.spec_kind(),
    {
        self.kind
    }

    /// Gets the message.
    pub fn msg(&self) -> &'static str {
        self.msg
    }
}

/// Errors of the Hamming-space join.
#[derive(Clone, Debug)]
pub enum AllPairsHammingError {
    /// Contains [`InputError`].
    Input(InputError),
}

impl AllPairsHammingError {
    /// An input error of the given kind.
    pub fn input(kind: ErrorKind, msg: &'static str) -> (r: Self)
        ensures
            r.kind() == kind,
    {
        AllPairsHammingError::Input(InputError::new(kind, msg))
    }

    /// What was wrong.
    pub open spec fn kind(&self) -> ErrorKind {
        match self {
            AllPairsHammingError::Input(e) => e.spec_kind(),
        }
    }
}

/// Errors of the document searchers.
#[derive(Clone, Debug)]
pub enum FindSimdocError {
    /// Contains [`InputError`].
    Input(InputError),
}

impl FindSimdocError {
    /// An input error of the given kind.
    pub fn input(kind: ErrorKind, msg: &'static str) -> (r: Self)
        ensures
            r.kind() == kind,
    {
        FindSimdocError::Input(InputError::new(kind, msg))
    }

    /// What was wrong.
    pub open spec fn kind(&self) -> ErrorKind {
        match self {
            FindSimdocError::Input(e) => e.spec_kind(),
        }
    }
}

} // verus!
