//! A log of timestamped writes and deletions.
//!
//! A write is recorded, in little-endian byte order, as
//!
//! ```text
//! [u64 key_len][u8 0][u64 value_len][key][value][u128 timestamp]
//! ```
//!
//! and a deletion as
//!
//! ```text
//! [u64 key_len][u8 1][key][u128 timestamp]
//! ```
//!
//! Records follow each other without a separator. Reading is lenient: it
//! stops where the bytes that remain are no whole record.

use crate::bytes::{append_bytes, copy_range};
use crate::mem_table::{entry_map, EntryView, MemTable};
use vstd::bytes::{
    lemma_auto_spec_u128_to_from_le_bytes, lemma_auto_spec_u64_to_from_le_bytes,
    spec_u128_from_le_bytes, spec_u128_to_le_bytes, spec_u64_from_le_bytes,
    spec_u64_to_le_bytes, u128_from_le_bytes, u128_to_le_bytes, u64_from_le_bytes,
    u64_to_le_bytes,
};
use vstd::prelude::*;
use vstd::slice::slice_subrange;

verus! {

/// A record of the log.
#[derive(Clone, Debug, PartialEq, Eq)]
pub struct WalEntry {
    /// The key that was written or deleted.
    pub key: Vec<u8>,
    /// The value that was written; a deletion has none.
    pub value: Option<Vec<u8>>,
    /// When the record was made, in microseconds since the epoch.
    pub timestamp: u128,
    /// Whether the record is a deletion.
    pub deleted: bool,
}

impl View for WalEntry {
    type V = EntryView;

    open spec fn view(&self) -> EntryView {
        EntryView {
            key: self.key@,
            value: match self.value {
                Some(value) => Some(value@),
                None => None,
            },
            timestamp: self.timestamp,
            deleted: self.deleted,
        }
    }
}

/// The record of a write of `value` under `key`.
pub open spec fn set_record(key: Seq<u8>, value: Seq<u8>, timestamp: u128) -> Seq<u8> {
    spec_u64_to_le_bytes(key.len() as u64) + seq![0u8] + spec_u64_to_le_bytes(value.len() as u64)
        + key + value + spec_u128_to_le_bytes(timestamp)
}

/// The record of a deletion of `key`.
pub open spec fn delete_record(key: Seq<u8>, timestamp: u128) -> Seq<u8> {
    spec_u64_to_le_bytes(key.len() as u64) + seq![1u8] + key + spec_u128_to_le_bytes(timestamp)
}

/// The record of `entry`: that of a deletion where the entry is marked as
/// deleted, else that of a write of its value.
pub open spec fn record_of(entry: EntryView) -> Seq<u8> {
    if entry.deleted {
        delete_record(entry.key, entry.timestamp)
    } else {
        set_record(
            entry.key,
            match entry.value {
                Some(value) => value,
                None => Seq::empty(),
            },
            entry.timestamp,
        )
    }
}

/// The little-endian `u64` that `bytes` holds at `at`.
pub open spec fn length_at(bytes: Seq<u8>, at: int) -> int {
    spec_u64_from_le_bytes(bytes.subrange(at, at + 8)) as int
}

/// The little-endian `u128` that `bytes` holds at `at`.
pub open spec fn timestamp_at(bytes: Seq<u8>, at: int) -> u128 {
    spec_u128_from_le_bytes(bytes.subrange(at, at + 16))
}

/// The record at the start of `bytes` and its length, where `bytes` starts
/// with a whole record.
///
/// A record is a deletion where its marker byte is not zero.
pub open spec fn decode_entry(bytes: Seq<u8>) -> Option<(EntryView, int)> {
    if bytes.len() < 9 {
        None
    } else if bytes[8] != 0 {
        let key_len = length_at(bytes, 0);
        if bytes.len() < 25 + key_len {
            None
        } else {
            Some(
                (
                    EntryView {
                        key: bytes.subrange(9, 9 + key_len),
                        value: None,
                        timestamp: timestamp_at(bytes, 9 + key_len),
                        deleted: true,
                    },
                    25 + key_len,
                ),
            )
        }
    } else if bytes.len() < 17 {
        None
    } else {
        let key_len = length_at(bytes, 0);
        let value_len = length_at(bytes, 9);
        if bytes.len() < 33 + key_len + value_len {
            None
        } else {
            Some(
                (
                    EntryView {
                        key: bytes.subrange(17, 17 + key_len),
                        value: Some(bytes.subrange(17 + key_len, 17 + key_len + value_len)),
                        timestamp: timestamp_at(bytes, 17 + key_len + value_len),
                        deleted: false,
                    },
                    33 + key_len + value_len,
                ),
            )
        }
    }
}

/// The records that `bytes` holds, up to where the rest is no whole record.
pub open spec fn decode_all(bytes: Seq<u8>) -> Seq<EntryView>
    decreases bytes.len(),
{
    match decode_entry(bytes) {
        None => Seq::empty(),
        Some((entry, length)) => if 0 < length <= bytes.len() {
            seq![entry] + decode_all(bytes.subrange(length, bytes.len() as int))
        } else {
            Seq::empty()
        },
    }
}

/// What the table keeps after `entries` were applied in order to a table
/// that kept `start`: per key the last of its records.
pub open spec fn applied(start: Map<Seq<u8>, EntryView>, entries: Seq<EntryView>) -> Map<
    Seq<u8>,
    EntryView,
>
    decreases entries.len(),
{
    if entries.len() == 0 {
        start
    } else {
        applied(start, entries.drop_last()).insert(entries.last().key, entries.last())
    }
}

/// The records of `entries`, one after the other.
pub open spec fn records(entries: Seq<EntryView>) -> Seq<u8>
    decreases entries.len(),
{
    if entries.len() == 0 {
        Seq::empty()
    } else {
        records(entries.drop_last()) + record_of(entries.last())
    }
}

/// The records of all `files`, file after file.
pub open spec fn decode_files(files: Seq<Vec<u8>>) -> Seq<EntryView>
    decreases files.len(),
{
    if files.len() == 0 {
        Seq::empty()
    } else {
        decode_files(files.drop_last()) + decode_all(files.last()@)
    }
}

/// The length of all `files` together.
pub open spec fn files_len(files: Seq<Vec<u8>>) -> nat
    decreases files.len(),
{
    if files.len() == 0 {
        0
    } else {
        files_len(files.drop_last()) + files.last()@.len()
    }
}

/// Encodes the record of a write of `value` under `key`.
pub fn encode_set(key: &[u8], value: &[u8], timestamp: u128) -> (record: Vec<u8>)
    ensures
        record@ == set_record(key@, value@, timestamp),
{
    let mut record: Vec<u8> = Vec::new();
    let key_len = u64_to_le_bytes(key.len() as u64);
    append_bytes(&mut record, key_len.as_slice());
    record.push(0u8);
    let value_len = u64_to_le_bytes(value.len() as u64);
    append_bytes(&mut record, value_len.as_slice());
    append_bytes(&mut record, key);
    append_bytes(&mut record, value);
    let stamp = u128_to_le_bytes(timestamp);
    append_bytes(&mut record, stamp.as_slice());
    assert(record@ == set_record(key@, value@, timestamp));
    record
}

/// Encodes the record of a deletion of `key`.
pub fn encode_delete(key: &[u8], timestamp: u128) -> (record: Vec<u8>)
    ensures
        record@ == delete_record(key@, timestamp),
{
    let mut record: Vec<u8> = Vec::new();
    let key_len = u64_to_le_bytes(key.len() as u64);
    append_bytes(&mut record, key_len.as_slice());
    record.push(1u8);
    append_bytes(&mut record, key);
    let stamp = u128_to_le_bytes(timestamp);
    append_bytes(&mut record, stamp.as_slice());
    assert(record@ == delete_record(key@, timestamp));
    record
}

/// The image of a log: the records appended to it, one after the other.
pub struct Wal {
    image: Vec<u8>,
}

impl View for Wal {
    type V = Seq<u8>;

    closed spec fn view(&self) -> Seq<u8> {
        self.image@
    }
}

/// A reader that walks the records of a log image.
pub struct WalIterator {
    bytes: Vec<u8>,
    position: usize,
}

impl WalIterator {
    /// The image that the reader walks.
    pub closed spec fn image(&self) -> Seq<u8> {
        self.bytes@
    }

    /// How far the reader has come.
    pub closed spec fn spec_position(&self) -> int {
        self.position as int
    }

    /// The reader stands inside its image.
    pub open spec fn wf(&self) -> bool {
        0 <= self.spec_position() <= self.image().len()
    }

    /// What the reader has still to read.
    pub open spec fn remaining(&self) -> Seq<u8> {
        self.image().subrange(self.spec_position(), self.image().len() as int)
    }

    /// A reader at the start of `image`.
    pub fn new(image: Vec<u8>) -> (reader: Self)
        ensures
            reader.wf(),
            reader.image() == image@,
            reader.spec_position() == 0,
    {
        WalIterator { bytes: image, position: 0 }
    }

    /// How far the reader has come.
    pub fn position(&self) -> (position: usize)
        ensures
            position == self.spec_position(),
    {
        self.position
    }

    /// Reads the next record and steps past it. Where what remains is no
    /// whole record, returns `None` and stays.
    pub fn next(&mut self) -> (entry: Option<WalEntry>)
        requires
            old(self).wf(),
        ensures
            final(self).wf(),
            final(self).image() == old(self).image(),
            match entry {
                Some(entry) => decode_entry(old(self).remaining()) == Some(
                    (entry@, final(self).spec_position() - old(self).spec_position()),
                ),
                None => decode_entry(old(self).remaining()) is None && final(self).spec_position()
                    == old(self).spec_position(),
            },
    {
        let bytes = self.bytes.as_slice();
        let at: usize = self.position;
        let remaining: usize = bytes.len() - at;
        let ghost rest = self.remaining();
        if remaining < 9 {
            return None;
        }
        let key_len: u64 = u64_from_le_bytes(slice_subrange(bytes, at, at + 8));
        assert(bytes@.subrange(at as int, at + 8) == rest.subrange(0, 8));
        let deleted: bool = bytes[at + 8] != 0;
        assert(bytes@[at + 8] == rest[8]);
        if deleted {
            if ((remaining - 9) as u64) < key_len {
                return None;
            }
            if remaining - 9 - (key_len as usize) < 16 {
                return None;
            }
            let key_end: usize = at + 9 + key_len as usize;
            let key = copy_range(bytes, at + 9, key_end);
            let timestamp: u128 = u128_from_le_bytes(slice_subrange(bytes, key_end, key_end + 16));
            assert(bytes@.subrange(at + 9, key_end as int) == rest.subrange(9, 9 + key_len));
            assert(bytes@.subrange(key_end as int, key_end + 16) == rest.subrange(
                9 + key_len,
                9 + key_len + 16,
            ));
            self.position = key_end + 16;
            Some(WalEntry { key, value: None, timestamp, deleted: true })
        } else {
            if remaining < 17 {
                return None;
            }
            let value_len: u64 = u64_from_le_bytes(slice_subrange(bytes, at + 9, at + 17));
            assert(bytes@.subrange(at + 9, at + 17) == rest.subrange(9, 17));
            if ((remaining - 17) as u64) < key_len {
                return None;
            }
            let after_key: usize = remaining - 17 - key_len as usize;
            if (after_key as u64) < value_len {
                return None;
            }
            if after_key - (value_len as usize) < 16 {
                return None;
            }
            let key_end: usize = at + 17 + key_len as usize;
            let value_end: usize = key_end + value_len as usize;
            let key = copy_range(bytes, at + 17, key_end);
            let value = copy_range(bytes, key_end, value_end);
            let timestamp: u128 = u128_from_le_bytes(
                slice_subrange(bytes, value_end, value_end + 16),
            );
            assert(bytes@.subrange(at + 17, key_end as int) == rest.subrange(17, 17 + key_len));
            assert(bytes@.subrange(key_end as int, value_end as int) == rest.subrange(
                17 + key_len,
                17 + key_len + value_len,
            ));
            assert(bytes@.subrange(value_end as int, value_end + 16) == rest.subrange(
                17 + key_len + value_len,
                17 + key_len + value_len + 16,
            ));
            self.position = value_end + 16;
            Some(WalEntry { key, value: Some(value), timestamp, deleted: false })
        }
    }
}

impl Wal {
    /// An empty log.
    pub fn new() -> (wal: Self)
        ensures
            wal@ == Seq::<u8>::empty(),
    {
        Wal { image: Vec::new() }
    }

    /// The log whose image is `image`, as read from a log file.
    pub fn from_bytes(image: Vec<u8>) -> (wal: Self)
        ensures
            wal@ == image@,
    {
        Wal { image }
    }

    /// The log's image.
    pub fn as_bytes(&self) -> (image: &[u8])
        ensures
            image@ == self@,
    {
        self.image.as_slice()
    }

    /// Appends the record of a write of `value` under `key`.
    pub fn set(&mut self, key: &[u8], value: &[u8], timestamp: u128)
        ensures
            final(self)@ == old(self)@ + set_record(key@, value@, timestamp),
    {
        let record = encode_set(key, value, timestamp);
        append_bytes(&mut self.image, record.as_slice());
    }

    /// Appends the record of a deletion of `key`.
    pub fn delete(&mut self, key: &[u8], timestamp: u128)
        ensures
            final(self)@ == old(self)@ + delete_record(key@, timestamp),
    {
        let record = encode_delete(key, timestamp);
        append_bytes(&mut self.image, record.as_slice());
    }

    /// A reader at the start of the log.
    pub fn into_iter(self) -> (reader: WalIterator)
        ensures
            reader.wf(),
            reader.image() == self@,
            reader.spec_position() == 0,
    {
        WalIterator::new(self.image)
    }

    /// Merges the logs of a directory into one new log and rebuilds the
    /// table from them.
    ///
    /// `wal_files` holds the images of the directory's log files in the order
    /// of their names. Their records are applied in that order to an empty
    /// table and appended to an empty log; a file is read up to where its
    /// rest is no whole record.
    pub fn load_wal_from_dir(wal_files: &Vec<Vec<u8>>) -> (loaded: (Wal, MemTable))
        requires
            files_len(wal_files@) <= usize::MAX,
        ensures
            loaded.0@ == records(decode_files(wal_files@)),
            loaded.1.wf(),
            entry_map(loaded.1@) == applied(Map::empty(), decode_files(wal_files@)),
            loaded.1.spec_size() <= files_len(wal_files@),
    {
        let mut new_mem_table = MemTable::new();
        let mut new_wal = Wal::new();
        let ghost mut done: Seq<EntryView> = Seq::empty();
        let mut i: usize = 0;
        proof {
            assert(wal_files@.subrange(0, 0) == Seq::<Vec<u8>>::empty());
            assert(entry_map(new_mem_table@) =~= Map::<Seq<u8>, EntryView>::empty());
        }
        while i < wal_files.len()
            invariant
                i <= wal_files@.len(),
                files_len(wal_files@) <= usize::MAX,
                done == decode_files(wal_files@.subrange(0, i as int)),
                new_wal@ == records(done),
                new_mem_table.wf(),
                entry_map(new_mem_table@) == applied(Map::empty(), done),
                new_mem_table.spec_size() <= files_len(wal_files@.subrange(0, i as int)),
            decreases wal_files@.len() - i,
        {
            let file = &wal_files[i];
            let ghost before = done;
            let ghost read_before = files_len(wal_files@.subrange(0, i as int));
            proof {
                lemma_files_step(wal_files@, i as int);
                lemma_files_len_prefix(wal_files@, i + 1);
                assert(file@.subrange(0, file@.len() as int) == file@);
            }
            let mut reader = WalIterator::new(copy_range(file.as_slice(), 0, file.len()));
            loop
                invariant
                    reader.wf(),
                    reader.image() == file@,
                    read_before + file@.len() <= usize::MAX,
                    before + decode_all(file@) == done + decode_all(reader.remaining()),
                    new_wal@ == records(done),
                    new_mem_table.wf(),
                    entry_map(new_mem_table@) == applied(Map::empty(), done),
                    new_mem_table.spec_size() <= read_before + reader.spec_position(),
                ensures
                    done == before + decode_all(file@),
                    new_wal@ == records(done),
                    new_mem_table.wf(),
                    entry_map(new_mem_table@) == applied(Map::empty(), done),
                    new_mem_table.spec_size() <= read_before + file@.len(),
                decreases reader.image().len() - reader.spec_position(),
            {
                let ghost rest = reader.remaining();
                match reader.next() {
                    None => {
                        assert(decode_all(rest) == Seq::<EntryView>::empty());
                        assert(done + Seq::<EntryView>::empty() == done);
                        break ;
                    },
                    Some(wal_entry) => {
                        proof {
                            let (_, length) = decode_entry(rest).unwrap();
                            assert(reader.remaining() == rest.subrange(length, rest.len() as int));
                            assert(done + (seq![wal_entry@] + decode_all(reader.remaining()))
                                == done.push(wal_entry@) + decode_all(reader.remaining()));
                            assert(done.push(wal_entry@).drop_last() == done);
                            done = done.push(wal_entry@);
                        }
                        match &wal_entry.value {
                            None => {
                                new_mem_table.delete(wal_entry.key.as_slice(), wal_entry.timestamp);
                                new_wal.delete(wal_entry.key.as_slice(), wal_entry.timestamp);
                            },
                            Some(value) => {
                                new_mem_table.set(
                                    wal_entry.key.as_slice(),
                                    value.as_slice(),
                                    wal_entry.timestamp,
                                );
                                new_wal.set(
                                    wal_entry.key.as_slice(),
                                    value.as_slice(),
                                    wal_entry.timestamp,
                                );
                            },
                        }
                    },
                }
            }
            i = i + 1;
        }
        proof {
            assert(wal_files@.subrange(0, i as int) == wal_files@);
        }
        (new_wal, new_mem_table)
    }
}

/// The records of the first `count + 1` files are those of the first `count`
/// files followed by those of file `count`.
proof fn lemma_files_step(files: Seq<Vec<u8>>, count: int)
    requires
        0 <= count < files.len(),
    ensures
        decode_files(files.subrange(0, count + 1)) == decode_files(files.subrange(0, count))
            + decode_all(files[count]@),
        files_len(files.subrange(0, count + 1)) == files_len(files.subrange(0, count))
            + files[count]@.len(),
{
    assert(files.subrange(0, count + 1).drop_last() == files.subrange(0, count));
}

/// The first files are no longer than all files together.
proof fn lemma_files_len_prefix(files: Seq<Vec<u8>>, count: int)
    requires
        0 <= count <= files.len(),
    ensures
        files_len(files.subrange(0, count)) <= files_len(files),
    decreases files.len() - count,
{
    if count < files.len() {
        lemma_files_step(files, count);
        lemma_files_len_prefix(files, count + 1);
    } else {
        assert(files.subrange(0, count) == files);
    }
}

/// Reading back the record of a write gives the write: its key, its value
/// and its timestamp, and the length of the record.
pub proof fn lemma_decode_set_record(key: Seq<u8>, value: Seq<u8>, timestamp: u128, rest: Seq<u8>)
    requires
        key.len() <= u64::MAX,
        value.len() <= u64::MAX,
    ensures
        decode_entry(set_record(key, value, timestamp) + rest) == Some(
            (EntryView::live(key, value, timestamp), 33 + key.len() as int + value.len() as int),
        ),
        set_record(key, value, timestamp).len() == 33 + key.len() + value.len(),
{
    lemma_auto_spec_u64_to_from_le_bytes();
    lemma_auto_spec_u128_to_from_le_bytes();
    let record = set_record(key, value, timestamp);
    let bytes = record + rest;
    let key_len = key.len() as int;
    let value_len = value.len() as int;
    assert(bytes.subrange(0, 8) == spec_u64_to_le_bytes(key.len() as u64));
    assert(bytes[8] == 0u8);
    assert(bytes.subrange(9, 17) == spec_u64_to_le_bytes(value.len() as u64));
    assert(bytes.subrange(17, 17 + key_len) == key);
    assert(bytes.subrange(17 + key_len, 17 + key_len + value_len) == value);
    assert(bytes.subrange(17 + key_len + value_len, 17 + key_len + value_len + 16)
        == spec_u128_to_le_bytes(timestamp));
}

/// Reading back the record of a deletion gives the deletion: its key and its
/// timestamp, and the length of the record.
pub proof fn lemma_decode_delete_record(key: Seq<u8>, timestamp: u128, rest: Seq<u8>)
    requires
        key.len() <= u64::MAX,
    ensures
        decode_entry(delete_record(key, timestamp) + rest) == Some(
            (EntryView::tombstone(key, timestamp), 25 + key.len() as int),
        ),
        delete_record(key, timestamp).len() == 25 + key.len(),
{
    lemma_auto_spec_u64_to_from_le_bytes();
    lemma_auto_spec_u128_to_from_le_bytes();
    let record = delete_record(key, timestamp);
    let bytes = record + rest;
    let key_len = key.len() as int;
    assert(bytes.subrange(0, 8) == spec_u64_to_le_bytes(key.len() as u64));
    assert(bytes[8] == 1u8);
    assert(bytes.subrange(9, 9 + key_len) == key);
    assert(bytes.subrange(9 + key_len, 9 + key_len + 16) == spec_u128_to_le_bytes(timestamp));
}

/// The entry is one that a record can stand for: a write with a value, or a
/// deletion without one, and its lengths can be counted.
pub open spec fn recordable(entry: EntryView) -> bool {
    &&& entry.key.len() <= u64::MAX
    &&& entry.deleted <==> entry.value is None
    &&& entry.value matches Some(value) ==> value.len() <= u64::MAX
}

/// Reading back a record gives the entry that it stands for.
pub proof fn lemma_decode_record(entry: EntryView, rest: Seq<u8>)
    requires
        recordable(entry),
    ensures
        decode_entry(record_of(entry) + rest) == Some((entry, record_of(entry).len() as int)),
        record_of(entry).len() >= 25,
{
    if entry.deleted {
        lemma_decode_delete_record(entry.key, entry.timestamp, rest);
    } else {
        lemma_decode_set_record(entry.key, entry.value.unwrap(), entry.timestamp, rest);
    }
}

/// The log of a first entry and further entries starts with the record of
/// the first.
pub proof fn lemma_records_front(entries: Seq<EntryView>)
    requires
        entries.len() > 0,
    ensures
        records(entries) == record_of(entries[0]) + records(
            entries.subrange(1, entries.len() as int),
        ),
    decreases entries.len(),
{
    let tail = entries.subrange(1, entries.len() as int);
    if entries.len() == 1 {
        assert(entries.drop_last() == Seq::<EntryView>::empty());
        assert(tail == Seq::<EntryView>::empty());
        assert(records(entries.drop_last()) == Seq::<u8>::empty());
        assert(records(tail) == Seq::<u8>::empty());
        assert(entries.last() == entries[0]);
        assert(Seq::<u8>::empty() + record_of(entries[0]) == record_of(entries[0])
            + Seq::<u8>::empty());
    } else {
        lemma_records_front(entries.drop_last());
        assert(entries.drop_last().subrange(1, entries.len() - 1) == tail.drop_last());
        assert(tail.last() == entries.last());
        assert(record_of(entries[0]) + records(tail.drop_last()) + record_of(entries.last())
            == record_of(entries[0]) + (records(tail.drop_last()) + record_of(entries.last())));
    }
}

/// Reading back a log gives the entries that were logged.
pub proof fn lemma_log_round_trip(entries: Seq<EntryView>)
    requires
        forall|i: int| 0 <= i < entries.len() ==> recordable(#[trigger] entries[i]),
    ensures
        decode_all(records(entries)) == entries,
    decreases entries.len(),
{
    if entries.len() == 0 {
        assert(entries == Seq::<EntryView>::empty());
    } else {
        let tail = entries.subrange(1, entries.len() as int);
        lemma_records_front(entries);
        lemma_decode_record(entries[0], records(tail));
        assert forall|i: int| 0 <= i < tail.len() implies recordable(#[trigger] tail[i]) by {
            assert(tail[i] == entries[i + 1]);
        }
        lemma_log_round_trip(tail);
        let bytes = records(entries);
        let length = record_of(entries[0]).len() as int;
        assert(bytes.subrange(length, bytes.len() as int) == records(tail));
        assert(seq![entries[0]] + tail == entries);
    }
}

} // verus!
