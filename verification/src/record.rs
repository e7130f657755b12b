//! A record: an opaque byte payload plus the absolute offset the log
//! assigned to it.

use vstd::prelude::*;

verus! {

/// One record of the log.  The engine never inspects `value`; callers
/// serialize and deserialize it themselves.
#[derive(Debug)]
pub struct Record {
    /// The opaque payload.
    pub value: Vec<u8>,
    /// The absolute offset, assigned by the log at append time.
    pub offset: u64,
}

impl Record {
    /// A record not yet appended: the given payload, offset 0.
    pub fn new(value: Vec<u8>) -> (r: Record)
        ensures
            r.value@ == value@,
            r.offset == 0,
    {
        Record { value, offset: 0 }
    }
}

} // verus!
