//! A single key-value record as stored in the log.
use vstd::prelude::*;

verus! {

/// One key-value pair of the log. An empty `val` marks the key as deleted.
#[derive(Debug, Clone)]
pub struct Record {
    pub key: String,
    pub val: String,
}

impl Record {
    /// Whether this record is a tombstone: a deletion marker, written with an
    /// empty value.
    pub fn is_tombstone(&self) -> (r: bool)
        ensures
            r == (self.val@.len() == 0),
    {
        self.val.as_str().is_empty()
    }
}

} // verus!
