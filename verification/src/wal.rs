//! The write-ahead log: an append-only record of transactional intents,
//! and the length-prefixed byte format it is stored in.

use vstd::prelude::*;
use crate::error::ReefDBError;

verus! {

/// Operations a log entry can record.
#[derive(Clone, Copy, PartialEq, Eq, Structural, Debug)]
pub enum WALOperation {
    Begin,
    Commit,
    Rollback,
    Insert,
    Update,
    Delete,
}

impl DeepView for WALOperation {
    type V = WALOperation;

    open spec fn deep_view(&self) -> WALOperation {
        *self
    }
}

/// The model of one log entry.
pub struct WALEntryM {
    pub transaction_id: u64,
    pub timestamp: u64,
    pub operation: WALOperation,
    pub table_name: Seq<char>,
    pub data: Seq<u8>,
}

/// One log entry: who, when (in nanoseconds handed in by the caller),
/// what, where, and an opaque payload.
#[derive(PartialEq, Eq, Debug)]
pub struct WALEntry {
    pub transaction_id: u64,
    pub timestamp: u64,
    pub operation: WALOperation,
    pub table_name: String,
    pub data: Vec<u8>,
}

impl DeepView for WALEntry {
    type V = WALEntryM;

    open spec fn deep_view(&self) -> WALEntryM {
        WALEntryM {
            transaction_id: self.transaction_id,
            timestamp: self.timestamp,
            operation: self.operation,
            table_name: self.table_name@,
            data: self.data@,
        }
    }
}

/// Whether the log holds a `Commit` entry for `tx`.
pub open spec fn wal_has_commit(log: Seq<WALEntryM>, tx: u64) -> bool {
    exists|i: int|
        0 <= i < log.len() && log[i].transaction_id == tx && log[i].operation
            == WALOperation::Commit
}

/// The append-only log. Entries are kept in append order; replay yields
/// them in that order.
pub struct WriteAheadLog {
    entries: Vec<WALEntry>,
}

impl View for WriteAheadLog {
    type V = Seq<WALEntryM>;

    closed spec fn view(&self) -> Seq<WALEntryM> {
        self.entries.deep_view()
    }
}

impl WriteAheadLog {
    /// An empty log.
    pub fn new() -> (r: Self)
        ensures
            r@ == Seq::<WALEntryM>::empty(),
    {
        let r = WriteAheadLog { entries: Vec::new() };
        proof {
            assert(r@ =~= Seq::<WALEntryM>::empty());
        }
        r
    }

    /// Appends one entry; an in-memory append always succeeds.
    pub fn append_entry(&mut self, entry: WALEntry) -> (r: Result<(), ReefDBError>)
        ensures
            r is Ok,
            final(self)@ == old(self)@.push(entry.deep_view()),
    {
        let ghost e = entry.deep_view();
        self.entries.push(entry);
        proof {
            assert(self@ =~= old(self)@.push(e));
        }
        Ok(())
    }

    /// The entries in append order.
    pub fn replay(&self) -> (r: &Vec<WALEntry>)
        ensures
            r.deep_view() == self@,
    {
        &self.entries
    }

    /// Number of entries.
    pub fn len(&self) -> (n: usize)
        ensures
            n == self@.len(),
    {
        self.entries.len()
    }

    /// The entry at position `i`.
    pub fn entry_at(&self, i: usize) -> (r: &WALEntry)
        requires
            i < self@.len(),
        ensures
            r.deep_view() == self@[i as int],
    {
        &self.entries[i]
    }
}

} // verus!
