//! What the engine reports when it cannot do what it was asked.

use vstd::prelude::*;

verus! {

/// The errors of the engine.
#[derive(Clone, Copy, Debug, PartialEq, Eq, Structural)]
pub enum ErrorCode {
    /// No block is free for the record. Transient: the call may be
    /// repeated once compaction has freed memory.
    OutOfMemory,
    /// The key has no object.
    NotFound,
    /// The value is longer than the configured maximum.
    ValueTooLarge,
    /// An argument makes no sense: an empty value, a placement on a socket
    /// that does not exist, a buffer too small for the value.
    InvalidArgument,
    /// The index has no room for the key: the table is under-provisioned.
    /// The caller is expected to stop.
    Fatal,
}

impl ErrorCode {
    /// Whether the call that gave this error is worth repeating.
    pub fn is_transient(&self) -> (yes: bool)
        ensures
            yes == (*self == ErrorCode::OutOfMemory),
    {
        match self {
            ErrorCode::OutOfMemory => true,
            _ => false,
        }
    }
}

} // verus!
