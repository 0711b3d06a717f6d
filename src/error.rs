use vstd::prelude::*;

verus! {

/// Why a storage operation failed.
#[derive(Clone, Copy, Debug, PartialEq, Eq, Structural)]
pub enum StateError {
    /// No row is stored under the requested id.
    NotFound,
    /// A stored id is not valid UTF-8.
    InvalidUtf8,
    /// The store cannot take the write: an empty value, or a namespace
    /// component too long to be length-prefixed.
    WriteRejected,
}

} // verus!
