//! The unit of change: one log record, and its mathematical model.
use vstd::prelude::*;

verus! {

/// Model of a record or of a memtable entry: `value` is `None` for a
/// deletion marker (tombstone).
pub struct Record {
    pub key: Seq<u8>,
    pub value: Option<Seq<u8>>,
    pub timestamp: u128,
    pub deleted: bool,
}

/// The tombstone flag agrees with the absence of a value.
pub open spec fn record_wf(r: Record) -> bool {
    r.deleted <==> r.value is None
}

pub open spec fn set_record(key: Seq<u8>, value: Seq<u8>, timestamp: u128) -> Record {
    Record { key, value: Some(value), timestamp, deleted: false }
}

pub open spec fn delete_record(key: Seq<u8>, timestamp: u128) -> Record {
    Record { key, value: None, timestamp, deleted: true }
}

pub open spec fn bytes_view(v: Option<Vec<u8>>) -> Option<Seq<u8>> {
    match v {
        Some(b) => Some(b@),
        None => None,
    }
}

/// A record as read from, or written to, a log segment.
pub struct WalEntry {
    pub key: Vec<u8>,
    pub value: Option<Vec<u8>>,
    pub timestamp: u128,
    pub deleted: bool,
}

impl View for WalEntry {
    type V = Record;

    open spec fn view(&self) -> Record {
        Record {
            key: self.key@,
            value: bytes_view(self.value),
            timestamp: self.timestamp,
            deleted: self.deleted,
        }
    }
}

} // verus!
