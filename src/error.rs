use vstd::prelude::*;

verus! {

/// What can go wrong in the recording index.
#[derive(Clone, Copy, Debug, PartialEq, Eq, Structural)]
pub enum RecordError {
    /// The storage backend failed to open, write or flush.
    Io,
    /// No session carries the given id.
    NotFound,
    /// The session was closed already.
    AlreadyClosed,
    /// A start (or an id) cannot be made unique.
    Conflict,
    /// A timestamp is not positive, or precedes what the index holds.
    InvalidTimestamp,
    /// A persisted record could not be decoded.
    Corruption,
}

} // verus!
