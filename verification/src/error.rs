use vstd::prelude::*;

verus! {

/// The error taxonomy of the node / document / query boundary.  Every failure
/// of a tree operation is reported as one of these typed values; no raw
/// sentinel crosses the boundary.
#[derive(Debug, PartialEq, Eq, Structural)]
pub enum XmlError {
    /// Construction could not allocate a new position (the arena is full).
    AllocationFailure,
    /// A mutation was blocked by the aliasing guard; carries the live alias
    /// count that conflicted with the configured threshold.
    AliasingError(u64),
    /// A structural operation required a currently detached node.
    NotDetachedError,
    /// The node handed to a replace-child operation is not a child of the
    /// parent it was addressed through.
    NotAChildError,
    /// A namespace registration was rejected.
    InvalidNamespaceError,
    /// A query expression failed to compile or to evaluate.
    CompileOrRuntimeQueryError,
    /// Removing a property failed.
    PropertyRemovalFailure,
}

/// Severity levels reported for document errors.
#[derive(Debug, PartialEq, Eq, Structural)]
pub enum XmlErrorLevel {
    /// No error
    NoError,
    /// A simple warning
    Warning,
    /// A recoverable error
    Error,
    /// A fatal error
    Fatal,
}

impl XmlErrorLevel {
    /// Convert an error level provided as an integer into an `XmlErrorLevel`.
    pub fn from_raw(error_level: u32) -> (r: XmlErrorLevel)
        requires
            error_level <= 3,
        ensures
            r == (if error_level == 0 {
                XmlErrorLevel::NoError
            } else if error_level == 1 {
                XmlErrorLevel::Warning
            } else if error_level == 2 {
                XmlErrorLevel::Error
            } else {
                XmlErrorLevel::Fatal
            }),
    {
        match error_level {
            0 => XmlErrorLevel::NoError,
            1 => XmlErrorLevel::Warning,
            2 => XmlErrorLevel::Error,
            _ => XmlErrorLevel::Fatal,
        }
    }
}

} // verus!
