//! A storage engine of a timestamped write buffer and its log.
//!
//! Every write and every deletion is appended to the log and then applied to
//! the buffer, stamped with the time at which it was made. The engine holds
//! the log's image; writing that image through to the log file is the
//! caller's part.

use crate::helper::generate_timestamp;
use crate::mem_table::{entry_map, lookup, stored_size, EntryView, MemTable};
use crate::wal::{applied, decode_files, delete_record, files_len, records, set_record, Wal};
use vstd::prelude::*;
use vstd::slice::slice_to_vec;

verus! {

/// What the engine returns for a key: the key, its value, and when the value
/// was written.
#[derive(Debug, Clone, PartialEq, Eq)]
pub struct StorageEngineEntry {
    pub key: Vec<u8>,
    pub value: Vec<u8>,
    pub timestamp: u128,
}

impl StorageEngineEntry {
    /// The key.
    pub fn key(&self) -> (key: &[u8])
        ensures
            key@ == self.key@,
    {
        self.key.as_slice()
    }

    /// The value.
    pub fn value(&self) -> (value: &[u8])
        ensures
            value@ == self.value@,
    {
        self.value.as_slice()
    }

    /// The time of the write, in microseconds since the epoch.
    pub fn timestamp(&self) -> (timestamp: u128)
        ensures
            timestamp == self.timestamp,
    {
        self.timestamp
    }
}

/// What a read of `key` returns from a table that keeps `entries`: the
/// entry's key, value and timestamp where the table keeps a value under
/// `key`, nothing where it keeps a tombstone or no entry.
pub open spec fn read(entries: Seq<EntryView>, key: Seq<u8>) -> Option<(Seq<u8>, Seq<u8>, u128)> {
    match lookup(entries, key) {
        Some(entry) => match entry.value {
            Some(value) => Some((entry.key, value, entry.timestamp)),
            None => None,
        },
        None => None,
    }
}

/// The engine: a write buffer and the log from which it can be rebuilt.
pub struct StorageEngine {
    pub mem_table: MemTable,
    pub wal: Wal,
}

impl StorageEngine {
    /// The engine is in order: its buffer is.
    pub open spec fn wf(&self) -> bool {
        self.mem_table.wf()
    }

    /// Starts an engine from the log files of its directory.
    ///
    /// `wal_files` holds the images of the directory's log files in the order
    /// of their names. The buffer is rebuilt from their records, and the
    /// engine's log holds those records anew.
    pub fn new(wal_files: &Vec<Vec<u8>>) -> (engine: Self)
        requires
            files_len(wal_files@) <= usize::MAX,
        ensures
            engine.wf(),
            engine.wal@ == records(decode_files(wal_files@)),
            entry_map(engine.mem_table@) == applied(Map::empty(), decode_files(wal_files@)),
            engine.mem_table.spec_size() <= files_len(wal_files@),
    {
        let (wal, mem_table) = Wal::load_wal_from_dir(wal_files);
        StorageEngine { mem_table, wal }
    }

    /// Reads the value kept under `key`.
    pub fn get(&self, key: &[u8]) -> (entry: Option<StorageEngineEntry>)
        requires
            self.wf(),
        ensures
            match entry {
                Some(entry) => read(self.mem_table@, key@) == Some(
                    (entry.key@, entry.value@, entry.timestamp),
                ),
                None => read(self.mem_table@, key@) is None,
            },
    {
        match self.mem_table.get(key) {
            Some(mem_table_entry) => match &mem_table_entry.value {
                Some(value) => Some(
                    StorageEngineEntry {
                        key: slice_to_vec(mem_table_entry.key.as_slice()),
                        value: slice_to_vec(value.as_slice()),
                        timestamp: mem_table_entry.timestamp,
                    },
                ),
                None => None,
            },
            None => None,
        }
    }

    /// Writes `value` under `key`, stamped with `timestamp`: the write is
    /// logged and then applied to the buffer.
    pub fn set_at(&mut self, key: &[u8], value: &[u8], timestamp: u128)
        requires
            old(self).wf(),
            old(self).mem_table.spec_size() + key@.len() + value@.len() + 17 <= usize::MAX,
        ensures
            final(self).wf(),
            final(self).wal@ == old(self).wal@ + set_record(key@, value@, timestamp),
            entry_map(final(self).mem_table@) == entry_map(old(self).mem_table@).insert(
                key@,
                EntryView::live(key@, value@, timestamp),
            ),
            read(final(self).mem_table@, key@) == Some((key@, value@, timestamp)),
            final(self).mem_table.spec_size() == old(self).mem_table.spec_size() - stored_size(
                old(self).mem_table@,
                key@,
            ) + EntryView::live(key@, value@, timestamp).size(),
    {
        self.wal.set(key, value, timestamp);
        self.mem_table.set(key, value, timestamp);
    }

    /// Deletes `key`, stamped with `timestamp`: the deletion is logged and
    /// then applied to the buffer.
    pub fn delete_at(&mut self, key: &[u8], timestamp: u128)
        requires
            old(self).wf(),
            old(self).mem_table.spec_size() + key@.len() + 17 <= usize::MAX,
        ensures
            final(self).wf(),
            final(self).wal@ == old(self).wal@ + delete_record(key@, timestamp),
            entry_map(final(self).mem_table@) == entry_map(old(self).mem_table@).insert(
                key@,
                EntryView::tombstone(key@, timestamp),
            ),
            read(final(self).mem_table@, key@) is None,
            final(self).mem_table.spec_size() == old(self).mem_table.spec_size() - stored_size(
                old(self).mem_table@,
                key@,
            ) + EntryView::tombstone(key@, timestamp).size(),
    {
        self.wal.delete(key, timestamp);
        self.mem_table.delete(key, timestamp);
    }

    /// Writes `value` under `key`, stamped with the current time. Returns
    /// `Ok(1)`.
    pub fn set(&mut self, key: &[u8], value: &[u8]) -> (result: Result<usize, usize>)
        requires
            old(self).wf(),
            old(self).mem_table.spec_size() + key@.len() + value@.len() + 17 <= usize::MAX,
        ensures
            result == Ok::<usize, usize>(1),
            final(self).wf(),
            exists|timestamp: u128|
                {
                    &&& final(self).wal@ == old(self).wal@ + #[trigger] set_record(
                        key@,
                        value@,
                        timestamp,
                    )
                    &&& entry_map(final(self).mem_table@) == entry_map(
                        old(self).mem_table@,
                    ).insert(key@, EntryView::live(key@, value@, timestamp))
                    &&& read(final(self).mem_table@, key@) == Some((key@, value@, timestamp))
                },
            final(self).mem_table.spec_size() == old(self).mem_table.spec_size() - stored_size(
                old(self).mem_table@,
                key@,
            ) + key@.len() + value@.len() + 17,
    {
        let timestamp = generate_timestamp();
        self.set_at(key, value, timestamp);
        assert(final(self).wal@ == old(self).wal@ + set_record(key@, value@, timestamp));
        Ok(1)
    }

    /// Deletes `key`, stamped with the current time. Returns `Ok(1)`.
    pub fn delete(&mut self, key: &[u8]) -> (result: Result<usize, usize>)
        requires
            old(self).wf(),
            old(self).mem_table.spec_size() + key@.len() + 17 <= usize::MAX,
        ensures
            result == Ok::<usize, usize>(1),
            final(self).wf(),
            read(final(self).mem_table@, key@) is None,
            final(self).mem_table.spec_size() == old(self).mem_table.spec_size() - stored_size(
                old(self).mem_table@,
                key@,
            ) + key@.len() + 17,
            exists|timestamp: u128|
                {
                    &&& final(self).wal@ == old(self).wal@ + #[trigger] delete_record(
                        key@,
                        timestamp,
                    )
                    &&& entry_map(final(self).mem_table@) == entry_map(
                        old(self).mem_table@,
                    ).insert(key@, EntryView::tombstone(key@, timestamp))
                },
    {
        let timestamp = generate_timestamp();
        self.delete_at(key, timestamp);
        assert(final(self).wal@ == old(self).wal@ + delete_record(key@, timestamp));
        Ok(1)
    }
}

} // verus!
