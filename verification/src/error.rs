//! The errors the engine reports.

use vstd::prelude::*;

verus! {

/// What can go wrong inside the engine.  Filesystem failures do not exist at
/// this level: file contents are plain byte vectors here, and the unverified
/// shell that binds them to real files reports its own I/O errors.
#[derive(Clone, Copy, PartialEq, Eq, Structural, Debug)]
pub enum LogError {
    /// A point read asked for an offset that no segment covers.
    OutOfRange,
    /// The log holds no segment at all, as after a truncation that removed
    /// every one of them.
    Empty,
    /// An index has no room for another entry; the owning segment is full.
    IndexFull,
    /// A read on an index that holds no entries.
    IndexEmpty,
    /// A store read reached past the end of the store's bytes.
    Eof,
}

impl LogError {
    /// A human-readable description.  Consumers match on the `OutOfRange`
    /// message by the substring "out of range", so that wording is part of
    /// the contract.
    pub fn message(&self) -> (m: &'static str)
        ensures
            *self is OutOfRange ==> m@ == "offset is out of range"@,
            *self is Empty ==> m@ == "segments is empty"@,
            *self is IndexFull ==> m@ == "index is full"@,
            *self is IndexEmpty ==> m@ == "index is empty"@,
            *self is Eof ==> m@ == "read past the end of the store"@,
    {
        match self {
            LogError::OutOfRange => "offset is out of range",
            LogError::Empty => "segments is empty",
            LogError::IndexFull => "index is full",
            LogError::IndexEmpty => "index is empty",
            LogError::Eof => "read past the end of the store",
        }
    }
}

} // verus!
