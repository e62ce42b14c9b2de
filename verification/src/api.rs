//! The storage engine: a key-value store of a write buffer, a write-ahead
//! log and a list of sorted string tables.
//!
//! A write is logged and then put into the buffer, where it replaces what
//! the buffer held under its key. A buffer that has reached its capacity is
//! flushed into a new table before the next write, and a fresh buffer takes
//! its place. A read looks into the buffer and then into the tables, newest
//! first. A removal takes the key out of the buffer, or else out of the
//! first table that holds it, and is logged where it found the key.
//!
//! The engine holds the image of the log. Keeping the log file equal to that
//! image, and the table files in step with the tables, is the caller's part:
//! it writes a record's frame to the file before it applies the write here.

use crate::error::Error;
use crate::memtable::{
    entries_of, found, lemma_pair_map_at, lemma_wf_is_listed, pair_map, pairs_of, sorted_pairs,
    MemTable, MemView, DEFAULT_FILTER_BITS, DEFAULT_FILTER_HASHES, DEFAULT_MEMTABLE_CAPACITY,
};
use crate::sst::sst_block::{entry_size, BlockView, BLOCK_SIZE};
use crate::sst::sstable::{
    blocks_without, contents, distinct_keys, file_name_of, filled, lemma_blocks_without,
    lemma_filled, SSTable, SSTableView,
};
use crate::write_ahead_log::{
    parse_log, records_of, replay, EntryKind, Record, WriteAheadLog, WriteAheadLogEntry,
};
use vstd::prelude::*;
use vstd::slice::slice_to_vec;
use vstd::string::StringExecFns;

verus! {

/// The unit in which a capacity is given.
#[derive(Clone, Copy, Debug, PartialEq, Eq, Structural)]
pub enum SizeUnit {
    Bytes,
    Kilobytes,
    Megabytes,
    Gigabytes,
}

impl SizeUnit {
    /// What `value` units amount to in bytes.
    pub open spec fn spec_to_bytes(self, value: nat) -> nat {
        match self {
            SizeUnit::Bytes => value,
            SizeUnit::Kilobytes => value * 1024,
            SizeUnit::Megabytes => value * 1_048_576,
            SizeUnit::Gigabytes => value * 1_073_741_824,
        }
    }

    /// Converts `value` units to bytes.
    pub fn to_bytes(&self, value: usize) -> (bytes: usize)
        requires
            self.spec_to_bytes(value as nat) <= usize::MAX,
        ensures
            bytes == self.spec_to_bytes(value as nat),
    {
        match self {
            SizeUnit::Bytes => value,
            SizeUnit::Kilobytes => value * 1024,
            SizeUnit::Megabytes => value * 1024 * 1024,
            SizeUnit::Gigabytes => value * 1024 * 1024 * 1024,
        }
    }

    /// Converts `value` units to bytes, or returns `None` where that many
    /// bytes cannot be counted.
    pub fn checked_to_bytes(&self, value: usize) -> (bytes: Option<usize>)
        ensures
            match bytes {
                Some(bytes) => bytes == self.spec_to_bytes(value as nat),
                None => self.spec_to_bytes(value as nat) > usize::MAX,
            },
    {
        let per_unit: usize = match self {
            SizeUnit::Bytes => 1,
            SizeUnit::Kilobytes => 1024,
            SizeUnit::Megabytes => 1_048_576,
            SizeUnit::Gigabytes => 1_073_741_824,
        };
        if value <= usize::MAX / per_unit {
            Some(self.to_bytes(value))
        } else {
            None
        }
    }
}

/// The name of the subdirectory that holds the write-ahead log.
pub const WAL_DIR_NAME: &'static str = "wal";

/// The name of the subdirectory that holds the sorted string tables.
pub const SST_DIR_NAME: &'static str = "sst";

/// The path of `child` inside the directory `base`: the two are joined by a
/// `/`, unless `base` is empty or ends in one.
pub open spec fn joined(base: Seq<char>, child: Seq<char>) -> Seq<char> {
    if base.len() == 0 || base.last() == '/' {
        base + child
    } else {
        base + seq!['/'] + child
    }
}

/// Joins a directory's path and the name of an entry in it.
pub fn join_path(base: &str, child: &str) -> (path: String)
    ensures
        path@ == joined(base@, child@),
{
    let length: usize = base.unicode_len();
    let mut path = String::from_str(base);
    if length > 0 && base.get_char(length - 1) != '/' {
        proof {
            reveal_strlit("/");
        }
        path.append("/");
        assert("/"@ == seq!['/']);
    }
    path.append(child);
    path
}

/// The directories of a store: the root, and under it `wal` for the
/// write-ahead log and `sst` for the sorted string tables.
#[derive(Clone, Debug, PartialEq, Eq)]
pub struct DirPath {
    root: String,
    wal: String,
    sst: String,
}

impl DirPath {
    /// The root directory.
    pub closed spec fn spec_root(&self) -> Seq<char> {
        self.root@
    }

    /// The directory of the write-ahead log.
    pub closed spec fn spec_wal(&self) -> Seq<char> {
        self.wal@
    }

    /// The directory of the sorted string tables.
    pub closed spec fn spec_sst(&self) -> Seq<char> {
        self.sst@
    }

    /// The subdirectories are `wal` and `sst` under the root.
    pub open spec fn wf(&self) -> bool {
        &&& self.spec_wal() == joined(self.spec_root(), WAL_DIR_NAME@)
        &&& self.spec_sst() == joined(self.spec_root(), SST_DIR_NAME@)
    }

    /// Lays out the directories under `directory_path`.
    pub fn build(directory_path: &str) -> (dir: Self)
        ensures
            dir.wf(),
            dir.spec_root() == directory_path@,
    {
        DirPath {
            root: String::from_str(directory_path),
            wal: join_path(directory_path, WAL_DIR_NAME),
            sst: join_path(directory_path, SST_DIR_NAME),
        }
    }

    /// The root directory.
    pub fn get_dir(&self) -> (root: &str)
        ensures
            root@ == self.spec_root(),
    {
        self.root.as_str()
    }

    /// The directory of the write-ahead log.
    pub fn wal_dir(&self) -> (wal: &str)
        ensures
            wal@ == self.spec_wal(),
    {
        self.wal.as_str()
    }

    /// The directory of the sorted string tables.
    pub fn sst_dir(&self) -> (sst: &str)
        ensures
            sst@ == self.spec_sst(),
    {
        self.sst.as_str()
    }
}

/// A table as the engine sees it: its blocks, and when it was created.
pub ghost struct TableView {
    pub blocks: Seq<BlockView>,
    pub created_at: i64,
}

impl TableView {
    /// What a lookup finds in the table, key by key.
    pub open spec fn contents(self) -> Map<Seq<u8>, Seq<u8>> {
        contents(self.blocks)
    }
}

/// The table `table` as the engine sees it.
pub open spec fn table_view(table: SSTableView) -> TableView {
    TableView { blocks: table.blocks, created_at: table.created_at }
}

/// The state of the engine: its write buffer, the image of its log, and its
/// tables in the order in which they are searched.
pub ghost struct EngineView {
    pub memtable: MemView,
    pub wal: Seq<u8>,
    pub tables: Seq<TableView>,
}

/// Table `at` of `tables` holds `key`.
pub open spec fn holder(tables: Seq<TableView>, key: Seq<u8>, at: int) -> bool {
    0 <= at < tables.len() && tables[at].contents().dom().contains(key)
}

/// The first table from `from` on that holds `key`, or the number of tables
/// where none does.
pub open spec fn first_table(tables: Seq<TableView>, key: Seq<u8>, from: int) -> int
    decreases tables.len() - from,
{
    if from >= tables.len() {
        tables.len() as int
    } else if from >= 0 && tables[from].contents().dom().contains(key) {
        from
    } else {
        first_table(tables, key, from + 1)
    }
}

/// The value of `key` in the first table that holds it.
pub open spec fn tables_get(tables: Seq<TableView>, key: Seq<u8>) -> Option<Seq<u8>> {
    let at = first_table(tables, key, 0);
    if at < tables.len() {
        Some(tables[at].contents()[key])
    } else {
        None
    }
}

/// The tables stand newest first: each was created after every table behind
/// it.
pub open spec fn newest_first(tables: Seq<TableView>) -> bool {
    forall|i: int, j: int|
        0 <= i < j < tables.len() ==> (#[trigger] tables[i]).created_at > (
        #[trigger] tables[j]).created_at
}

/// There is a time after the newest table: the next table can be stamped.
pub open spec fn can_stamp(tables: Seq<TableView>) -> bool {
    tables.len() > 0 ==> tables[0].created_at < i64::MAX
}

/// The creation time of a table that is flushed at `now`: `now`, or one
/// millisecond past the newest table where `now` is not after it. So every
/// table is newer than those before it, and no two share a file.
pub open spec fn stamp_for(tables: Seq<TableView>, now: i64) -> i64 {
    if tables.len() > 0 && tables[0].created_at >= now {
        (tables[0].created_at + 1) as i64
    } else {
        now
    }
}

/// The tables after `key` was removed from the first of them that holds it:
/// the others stay as they are, and so do all where none holds the key.
pub open spec fn without_key(tables: Seq<TableView>, key: Seq<u8>) -> Seq<TableView> {
    let at = first_table(tables, key, 0);
    if at < tables.len() {
        tables.update(
            at,
            TableView {
                blocks: blocks_without(tables[at].blocks, key),
                created_at: tables[at].created_at,
            },
        )
    } else {
        tables
    }
}

/// Every entry of `map` fits into an empty block.
pub open spec fn fits_blocks(map: Map<Seq<u8>, Seq<u8>>) -> bool {
    forall|key: Seq<u8>| #[trigger]
        map.dom().contains(key) ==> entry_size(key, map[key]) <= BLOCK_SIZE
}

/// The record of a write of `value` under `key`.
pub open spec fn insert_record(key: Seq<u8>, value: Seq<u8>) -> Record {
    Record { kind: EntryKind::Insert, key, value }
}

/// The record of a removal of `key`.
pub open spec fn remove_record(key: Seq<u8>) -> Record {
    Record { kind: EntryKind::Remove, key, value: Seq::empty() }
}

/// What a record does to a buffer in a replay: an insert puts its value
/// under its key, replacing what was there, and a remove removes its key.
pub open spec fn applied(buffer: MemView, record: Record) -> MemView {
    match record.kind {
        EntryKind::Insert => buffer.put(record.key, record.value),
        EntryKind::Remove => buffer.remove(record.key),
    }
}

/// The buffer after `records` were applied to `start` in order. The last
/// record of a key decides what the buffer holds under it.
pub open spec fn replayed_buffer(start: MemView, records: Seq<Record>) -> MemView
    decreases records.len(),
{
    if records.len() == 0 {
        start
    } else {
        applied(replayed_buffer(start, records.drop_last()), records.last())
    }
}

/// The bytes of all keys and values of `records`.
pub open spec fn payload(records: Seq<Record>) -> nat
    decreases records.len(),
{
    if records.len() == 0 {
        0
    } else {
        payload(records.drop_last()) + records.last().key.len() + records.last().value.len()
    }
}

impl EngineView {
    /// The value of `key`: what the buffer holds, else what the first table
    /// holds that holds the key.
    pub open spec fn get(self, key: Seq<u8>) -> Option<Seq<u8>> {
        match self.memtable.get(key) {
            Some(value) => Some(value),
            None => tables_get(self.tables, key),
        }
    }

    /// Whether the buffer or a table holds `key`.
    pub open spec fn held(self, key: Seq<u8>) -> bool {
        self.memtable.get(key) is Some || tables_get(self.tables, key) is Some
    }

    /// Whether the buffer is due to be flushed.
    pub open spec fn is_full(self) -> bool {
        self.memtable.size >= self.memtable.capacity
    }

    /// An empty buffer with the capacity and the filter dimensions of the
    /// engine's buffer.
    pub open spec fn fresh_buffer(self) -> MemView {
        MemView::fresh(
            self.memtable.capacity,
            self.memtable.filter.bits.len() as usize,
            self.memtable.filter.num_hashes,
        )
    }

    /// The engine after its buffer was flushed at `now`: a table that was
    /// filled with the buffer's entries in ascending key order is put in
    /// front of the tables, and the buffer is cleared.
    pub open spec fn flushed(self, now: i64) -> EngineView {
        EngineView {
            memtable: self.memtable.clear(),
            wal: self.wal,
            tables: seq![
                TableView {
                    blocks: filled(entries_of(self.memtable.map)),
                    created_at: stamp_for(self.tables, now),
                },
            ] + self.tables,
        }
    }

    /// The engine after its buffer was flushed at `now` and replaced by a
    /// fresh one.
    pub open spec fn renewed(self, now: i64) -> EngineView {
        EngineView { memtable: self.fresh_buffer(), ..self.flushed(now) }
    }

    /// The engine after `put(key, value)` at the time `now`, and what the
    /// call returns.
    ///
    /// The record is logged first. A buffer that is full is then flushed and
    /// replaced by a fresh one, unless one of its entries fits no block: then
    /// the call ends with `BlockFull`. Last the value is put under the key in
    /// the buffer, whatever the buffer's filter reports, and the call
    /// returns `Ok`.
    pub open spec fn put(self, key: Seq<u8>, value: Seq<u8>, now: i64) -> (EngineView, Result<
        (),
        Error,
    >) {
        let logged = EngineView { wal: self.wal + insert_record(key, value).frame(), ..self };
        if self.is_full() && !fits_blocks(self.memtable.map) {
            (logged, Err(Error::BlockFull))
        } else {
            let ready = if self.is_full() {
                logged.renewed(now)
            } else {
                logged
            };
            (EngineView { memtable: ready.memtable.put(key, value), ..ready }, Ok(()))
        }
    }

    /// A key is held in one place at most: by the buffer or by one table.
    pub open spec fn held_once(self, key: Seq<u8>) -> bool {
        &&& forall|i: int| #[trigger]
            holder(self.tables, key, i) ==> self.memtable.get(key) is None
        &&& forall|i: int, j: int|
            #[trigger] holder(self.tables, key, i) && #[trigger] holder(self.tables, key, j)
                ==> i == j
    }

    /// The engine after `remove(key)`.
    ///
    /// A key of the buffer is removed from the buffer, and the tables stay
    /// as they are. Else a key of a table is removed from the first table
    /// that holds it. Where the key was found the removal is logged; where
    /// it was not, nothing changes.
    pub open spec fn remove(self, key: Seq<u8>) -> EngineView {
        let logged = self.wal + remove_record(key).frame();
        if self.memtable.get(key) is Some {
            EngineView { memtable: self.memtable.remove(key), wal: logged, tables: self.tables }
        } else if first_table(self.tables, key, 0) < self.tables.len() {
            EngineView {
                memtable: self.memtable,
                wal: logged,
                tables: without_key(self.tables, key),
            }
        } else {
            self
        }
    }

    /// The engine after `clear()`: a fresh buffer, an empty log, no tables.
    pub open spec fn clear(self) -> EngineView {
        EngineView { memtable: self.fresh_buffer(), wal: Seq::empty(), tables: Seq::empty() }
    }
}

/// The storage engine.
pub struct StorageEngine {
    pub memtable: MemTable,
    pub wal: WriteAheadLog,
    pub sstables: Vec<SSTable>,
    pub dir: DirPath,
}

impl View for StorageEngine {
    type V = EngineView;

    open spec fn view(&self) -> EngineView {
        EngineView {
            memtable: self.memtable@,
            wal: self.wal@,
            tables: Seq::new(self.sstables@.len(), |i: int| table_view(self.sstables@[i]@)),
        }
    }
}

impl StorageEngine {
    /// Every table is in order, holds no key twice, and has its file in the
    /// table directory, named after the table's creation time.
    pub open spec fn tables_wf(&self) -> bool {
        forall|i: int|
            0 <= i < self.sstables@.len() ==> {
                &&& (#[trigger] self.sstables@[i]).wf()
                &&& distinct_keys(self.sstables@[i]@.blocks)
                &&& self.sstables@[i]@.file_path == joined(
                    self.dir.spec_sst(),
                    file_name_of(self.sstables@[i]@.created_at),
                )
            }
    }

    /// The engine is in order: its buffer and its tables are, the buffer has
    /// a capacity, the tables stand newest first, and the log is a row of
    /// well-formed frames.
    pub open spec fn wf(&self) -> bool {
        &&& self.memtable.wf()
        &&& self.memtable@.capacity > 0
        &&& self.dir.wf()
        &&& self.tables_wf()
        &&& newest_first(self@.tables)
        &&& parse_log(self@.wal) is Ok
    }

    /// Opens the engine of the directory `directory_path` with the default
    /// capacity and filter. `wal_image` is what the log file holds.
    pub fn new(directory_path: &str, wal_image: Vec<u8>) -> (result: Result<Self, Error>)
        ensures
            match result {
                Ok(engine) => opened(
                    engine,
                    DEFAULT_MEMTABLE_CAPACITY as nat,
                    DEFAULT_FILTER_BITS,
                    DEFAULT_FILTER_HASHES,
                    wal_image@,
                ) && engine.dir.spec_root() == directory_path@,
                Err(error) => refused(error, wal_image@),
            },
    {
        Self::with_capacity_and_rate(
            DirPath::build(directory_path),
            SizeUnit::Bytes,
            DEFAULT_MEMTABLE_CAPACITY,
            DEFAULT_FILTER_BITS,
            DEFAULT_FILTER_HASHES,
            wal_image,
        )
    }

    /// Opens an engine whose buffer has `capacity` units of `size_unit` and
    /// a filter of `num_bits` bits and `num_hashes` probes per key: the
    /// dimensions that the wanted false-positive rate asks for.
    ///
    /// `wal_image` is what the log file holds. Its records are replayed into
    /// a fresh buffer: for each key the last record decides. Only a
    /// malformed frame ends the start, with `Corruption`. Tables are not
    /// loaded: the engine starts with none.
    pub fn with_capacity_and_rate(
        dir: DirPath,
        size_unit: SizeUnit,
        capacity: usize,
        num_bits: usize,
        num_hashes: usize,
        wal_image: Vec<u8>,
    ) -> (result: Result<Self, Error>)
        requires
            dir.wf(),
            capacity > 0,
            size_unit.spec_to_bytes(capacity as nat) <= usize::MAX,
            num_bits > 0,
            num_hashes > 0,
        ensures
            match result {
                Ok(engine) => opened(
                    engine,
                    size_unit.spec_to_bytes(capacity as nat),
                    num_bits,
                    num_hashes,
                    wal_image@,
                ) && engine.dir == dir,
                Err(error) => refused(error, wal_image@),
            },
    {
        let wal = WriteAheadLog::from_bytes(wal_image);
        let image_len: usize = wal.len();
        let entries = match wal.recover() {
            Ok(entries) => entries,
            Err(defect) => {
                return Err(Error::Corruption(defect));
            },
        };
        proof {
            assert(parse_log(wal@) == Ok::<Seq<Record>, crate::error::WalError>(
                records_of(entries@),
            ));
            crate::write_ahead_log::lemma_replayed_log_is_log(wal@, records_of(entries@));
            lemma_payload_within_log(records_of(entries@));
            assert(payload(records_of(entries@)) <= image_len);
        }
        let memtable = match StorageEngine::recover_memtable(
            entries,
            size_unit,
            capacity,
            num_bits,
            num_hashes,
        ) {
            Ok(memtable) => memtable,
            Err(error) => {
                return Err(error);
            },
        };
        let engine = StorageEngine { memtable, wal, sstables: Vec::new(), dir };
        assert(engine@.tables == Seq::<TableView>::empty());
        Ok(engine)
    }

    /// Rebuilds the buffer from the records of the log: they are applied in
    /// order to a fresh buffer, and for each key the last one decides.
    pub fn recover_memtable(
        entries: Vec<WriteAheadLogEntry>,
        size_unit: SizeUnit,
        capacity: usize,
        num_bits: usize,
        num_hashes: usize,
    ) -> (result: Result<MemTable, Error>)
        requires
            capacity > 0,
            size_unit.spec_to_bytes(capacity as nat) <= usize::MAX,
            num_bits > 0,
            num_hashes > 0,
            payload(records_of(entries@)) <= usize::MAX,
        ensures
            match result {
                Ok(memtable) => memtable.wf() && memtable@.capacity == size_unit.spec_to_bytes(
                    capacity as nat,
                ) && memtable@ == replayed_buffer(
                    MemView::fresh(size_unit.spec_to_bytes(capacity as nat), num_bits, num_hashes),
                    records_of(entries@),
                ),
                Err(_) => false,
            },
    {
        let mut memtable = MemTable::with_capacity_and_rate(
            size_unit,
            capacity,
            num_bits,
            num_hashes,
        );
        let ghost start = memtable@;
        let ghost records = records_of(entries@);
        let mut i: usize = 0;
        proof {
            assert(records.subrange(0, 0) == Seq::<Record>::empty());
        }
        while i < entries.len()
            invariant
                i <= entries@.len(),
                records == records_of(entries@),
                payload(records) <= usize::MAX,
                start == MemView::fresh(
                    size_unit.spec_to_bytes(capacity as nat),
                    num_bits,
                    num_hashes,
                ),
                memtable.wf(),
                memtable@.capacity == start.capacity,
                memtable@ == replayed_buffer(start, records.subrange(0, i as int)),
                memtable@.size <= payload(records.subrange(0, i as int)),
            decreases entries@.len() - i,
        {
            let entry = &entries[i];
            let ghost done = records.subrange(0, i as int);
            let ghost next = records.subrange(0, i + 1);
            proof {
                assert(next.drop_last() == done);
                assert(next.last() == entry@);
                assert(payload(next) == payload(done) + entry@.key.len() + entry@.value.len());
                lemma_payload_prefix(records, i + 1);
            }
            match entry.entry_kind {
                EntryKind::Insert => {
                    memtable.put(
                        slice_to_vec(entry.key.as_slice()),
                        slice_to_vec(entry.value.as_slice()),
                    );
                },
                EntryKind::Remove => {
                    memtable.remove(slice_to_vec(entry.key.as_slice()));
                },
            }
            i = i + 1;
        }
        proof {
            assert(records.subrange(0, i as int) == records);
        }
        Ok(memtable)
    }

    /// Writes `value` under `key`, with `now` as the time of a flush, in
    /// milliseconds since the epoch. See [`EngineView::put`].
    ///
    /// A key has at least one byte, the record of the write must fit a frame
    /// of the log, and there must be a time after the newest table, with
    /// which a new table can be stamped. The write returns `Ok` and is read
    /// back, unless the buffer was due to be flushed and holds an entry that
    /// fits no block.
    pub fn put_at(&mut self, key: &[u8], value: &[u8], now: i64) -> (result: Result<(), Error>)
        requires
            old(self).wf(),
            key@.len() > 0,
            insert_record(key@, value@).fits(),
            old(self)@.memtable.capacity + key@.len() + value@.len() <= usize::MAX,
            can_stamp(old(self)@.tables),
        ensures
            final(self).wf(),
            final(self).dir == old(self).dir,
            (final(self)@, result) == old(self)@.put(key@, value@, now),
            result is Ok ==> final(self)@.get(key@) == Some(value@),
            result is Err ==> result == Err::<(), Error>(Error::BlockFull) && old(self)@.is_full()
                && !fits_blocks(old(self)@.memtable.map),
    {
        proof {
            crate::write_ahead_log::lemma_parse_log_append(
                old(self)@.wal,
                insert_record(key@, value@),
            );
        }
        self.wal.append(EntryKind::Insert, slice_to_vec(key), slice_to_vec(value));
        let ghost logged = self@;
        assert(logged == (EngineView {
            wal: old(self)@.wal + insert_record(key@, value@).frame(),
            ..old(self)@
        }));
        let size: usize = self.memtable.size();
        assert(size == old(self)@.memtable.size);
        if size >= self.memtable.capacity() {
            let capacity = self.memtable.capacity();
            let num_bits = self.memtable.filter_bits();
            let num_hashes = self.memtable.filter_hashes();
            match self.flush_memtable(now) {
                Ok(()) => {},
                Err(error) => {
                    return Err(error);
                },
            }
            self.memtable = MemTable::with_capacity_and_rate(
                SizeUnit::Bytes,
                capacity,
                num_bits,
                num_hashes,
            );
            assert(self@ == (EngineView {
                memtable: old(self)@.fresh_buffer(),
                ..logged.flushed(now)
            }));
        }
        let ghost ready = self@;
        self.memtable.put(slice_to_vec(key), slice_to_vec(value));
        proof {
            assert(self@ == (EngineView { memtable: ready.memtable.put(key@, value@), ..ready }));
        }
        Ok(())
    }

    /// Writes `value` under `key`. Where the buffer is flushed, the current
    /// time is the time of the flush.
    pub fn put(&mut self, key: &[u8], value: &[u8]) -> (result: Result<(), Error>)
        requires
            old(self).wf(),
            key@.len() > 0,
            insert_record(key@, value@).fits(),
            old(self)@.memtable.capacity + key@.len() + value@.len() <= usize::MAX,
            can_stamp(old(self)@.tables),
        ensures
            final(self).wf(),
            final(self).dir == old(self).dir,
            exists|now: i64| (final(self)@, result) == #[trigger] old(self)@.put(key@, value@, now),
            result is Ok ==> final(self)@.get(key@) == Some(value@),
            result is Err ==> result == Err::<(), Error>(Error::BlockFull) && old(self)@.is_full()
                && !fits_blocks(old(self)@.memtable.map),
    {
        let now = crate::helper::current_millis();
        let result = self.put_at(key, value, now);
        assert((final(self)@, result) == old(self)@.put(key@, value@, now));
        result
    }

    /// Reads the value of `key`: from the buffer, else from the first table
    /// that holds the key.
    pub fn get(&self, key: &[u8]) -> (value: Option<Vec<u8>>)
        requires
            self.wf(),
        ensures
            found(value) == self@.get(key@),
    {
        match self.memtable.get(slice_to_vec(key)) {
            Some(value) => {
                return Some(value);
            },
            None => {},
        }
        let mut i: usize = 0;
        while i < self.sstables.len()
            invariant
                i <= self.sstables@.len(),
                self.wf(),
                self@.memtable.get(key@) is None,
                first_table(self@.tables, key@, 0) == first_table(self@.tables, key@, i as int),
            decreases self.sstables@.len() - i,
        {
            assert(self@.tables[i as int] == table_view(self.sstables@[i as int]@));
            match self.sstables[i].get(slice_to_vec(key)) {
                Some(value) => {
                    return Some(value);
                },
                None => {},
            }
            i = i + 1;
        }
        None
    }

    /// Removes `key`: from the buffer, else from the first table that holds
    /// it; a table is touched only where the buffer does not hold the key.
    /// Where the key was found a remove record is logged. A key that is
    /// nowhere is no error. Afterwards a read of `key` finds nothing, where
    /// the key was held in one place at most; else it finds what the next
    /// place holds.
    pub fn remove(&mut self, key: &[u8]) -> (result: Result<(), Error>)
        requires
            old(self).wf(),
            remove_record(key@).fits(),
        ensures
            result == Ok::<(), Error>(()),
            final(self).wf(),
            final(self).dir == old(self).dir,
            final(self)@ == old(self)@.remove(key@),
            old(self)@.held_once(key@) ==> final(self)@.get(key@) is None,
    {
        proof {
            crate::laws::lemma_wf_is_sound(&*self);
            if self@.held_once(key@) {
                crate::laws::lemma_get_after_remove(self@, key@);
            }
            crate::write_ahead_log::lemma_parse_log_append(self@.wal, remove_record(key@));
        }
        match self.memtable.remove(slice_to_vec(key)) {
            Some(_) => {
                self.wal.append(EntryKind::Remove, slice_to_vec(key), Vec::new());
                assert(self@.tables == old(self)@.tables);
                return Ok(());
            },
            None => {},
        }
        assert(self.memtable@ == old(self)@.memtable);
        let mut i: usize = 0;
        while i < self.sstables.len()
            invariant
                i <= self.sstables@.len(),
                self.wf(),
                old(self).wf(),
                self.dir == old(self).dir,
                self@ == old(self)@,
                remove_record(key@).fits(),
                parse_log(old(self)@.wal + remove_record(key@).frame()) is Ok,
                old(self)@.memtable.get(key@) is None,
                old(self)@.held_once(key@) ==> old(self)@.remove(key@).get(key@) is None,
                first_table(self@.tables, key@, 0) == first_table(self@.tables, key@, i as int),
            decreases self.sstables@.len() - i,
        {
            let ghost table = self.sstables@[i as int]@;
            proof {
                assert(self@.tables[i as int] == table_view(table));
                lemma_blocks_without(table.blocks, key@);
            }
            let held = self.sstables[i].get(slice_to_vec(key));
            if held.is_some() {
                let ghost before = self@;
                let ghost tables = self.sstables@;
                let removed = self.sstables[i].remove(slice_to_vec(key));
                proof {
                    assert(self@.tables =~= without_key(before.tables, key@));
                    assert forall|j: int| 0 <= j < self.sstables@.len() implies {
                        &&& (#[trigger] self.sstables@[j]).wf()
                        &&& distinct_keys(self.sstables@[j]@.blocks)
                        &&& self.sstables@[j]@.file_path == joined(
                            self.dir.spec_sst(),
                            file_name_of(self.sstables@[j]@.created_at),
                        )
                    } by {
                        if j != i {
                            assert(self.sstables@[j] == tables[j]);
                            assert(tables[j].wf());
                        }
                    }
                    assert forall|a: int, b: int| 0 <= a < b < self@.tables.len() implies (
                    #[trigger] self@.tables[a]).created_at > (
                    #[trigger] self@.tables[b]).created_at by {
                        assert(before.tables[a].created_at > before.tables[b].created_at);
                    }
                }
                self.wal.append(EntryKind::Remove, slice_to_vec(key), Vec::new());
                return Ok(());
            }
            i = i + 1;
        }
        Ok(())
    }

    /// Replaces the value of `key`: removes the key and writes it anew, with
    /// `now` as the time of a flush. The update returns `Ok` and the new
    /// value is read back, unless the buffer was due to be flushed and holds
    /// an entry that fits no block.
    pub fn update_at(&mut self, key: &[u8], value: &[u8], now: i64) -> (result: Result<(), Error>)
        requires
            old(self).wf(),
            key@.len() > 0,
            insert_record(key@, value@).fits(),
            old(self)@.memtable.capacity + key@.len() + value@.len() <= usize::MAX,
            can_stamp(old(self)@.tables),
        ensures
            final(self).wf(),
            final(self).dir == old(self).dir,
            (final(self)@, result) == old(self)@.remove(key@).put(key@, value@, now),
            result is Ok ==> final(self)@.get(key@) == Some(value@),
            result is Err ==> result == Err::<(), Error>(Error::BlockFull) && old(self)@.remove(
                key@,
            ).is_full() && !fits_blocks(old(self)@.memtable.map.remove(key@)),
    {
        match self.remove(key) {
            Ok(()) => {},
            Err(error) => {
                return Err(error);
            },
        }
        proof {
            if old(self)@.tables.len() > 0 {
                crate::laws::lemma_remove_touches_one_place(old(self)@, key@, 0);
            }
            if old(self)@.memtable.get(key@) is None {
                assert(old(self)@.memtable.map.remove(key@) =~= old(self)@.memtable.map) by {
                    crate::memtable::lemma_wf_is_covered(&old(self).memtable);
                }
            }
        }
        self.put_at(key, value, now)
    }

    /// Replaces the value of `key`: removes the key and writes it anew.
    pub fn update(&mut self, key: &[u8], value: &[u8]) -> (result: Result<(), Error>)
        requires
            old(self).wf(),
            key@.len() > 0,
            insert_record(key@, value@).fits(),
            old(self)@.memtable.capacity + key@.len() + value@.len() <= usize::MAX,
            can_stamp(old(self)@.tables),
        ensures
            final(self).wf(),
            final(self).dir == old(self).dir,
            exists|now: i64|
                (final(self)@, result) == #[trigger] old(self)@.remove(key@).put(
                    key@,
                    value@,
                    now,
                ),
            result is Ok ==> final(self)@.get(key@) == Some(value@),
            result is Err ==> result == Err::<(), Error>(Error::BlockFull) && old(self)@.remove(
                key@,
            ).is_full() && !fits_blocks(old(self)@.memtable.map.remove(key@)),
    {
        let now = crate::helper::current_millis();
        let result = self.update_at(key, value, now);
        assert((final(self)@, result) == old(self)@.remove(key@).put(key@, value@, now));
        result
    }

    /// Clears the store: returns an engine of the same directory with a
    /// fresh buffer, an empty log and no tables.
    pub fn clear(self) -> (engine: Self)
        requires
            self.wf(),
        ensures
            engine.wf(),
            engine.dir == self.dir,
            engine@ == self@.clear(),
    {
        let capacity = self.memtable.capacity();
        let num_bits = self.memtable.filter_bits();
        let num_hashes = self.memtable.filter_hashes();
        let memtable = MemTable::with_capacity_and_rate(
            SizeUnit::Bytes,
            capacity,
            num_bits,
            num_hashes,
        );
        let engine = StorageEngine {
            memtable,
            wal: WriteAheadLog::new(),
            sstables: Vec::new(),
            dir: self.dir,
        };
        assert(engine@.tables == Seq::<TableView>::empty());
        engine
    }

    /// Flushes the buffer at `now`: its entries go, in ascending key order,
    /// into a new table, the table is put in front of the tables, and the
    /// buffer is cleared. The table is stamped with `now`, or with one
    /// millisecond past the newest table where `now` is not after it. Where
    /// an entry fits no block, nothing changes and `BlockFull` is returned.
    pub fn flush_memtable(&mut self, now: i64) -> (result: Result<(), Error>)
        requires
            old(self).wf(),
            can_stamp(old(self)@.tables),
        ensures
            final(self).wf(),
            final(self).dir == old(self).dir,
            match result {
                Ok(()) => fits_blocks(old(self)@.memtable.map) && final(self)@ == old(
                    self,
                )@.flushed(now),
                Err(error) => error == Error::BlockFull && !fits_blocks(old(self)@.memtable.map)
                    && final(self)@ == old(self)@,
            },
    {
        let ghost tables = self@.tables;
        proof {
            if self.sstables@.len() > 0 {
                assert(tables[0] == table_view(self.sstables@[0]@));
            }
        }
        let stamp: i64 = if self.sstables.len() > 0 && self.sstables[0].created_at() >= now {
            self.sstables[0].created_at() + 1
        } else {
            now
        };
        assert(stamp == stamp_for(tables, now));
        let mut sstable = SSTable::with_timestamp(self.dir.sst_dir(), stamp);
        let entries = self.memtable.entries();
        let ghost pairs = entries_of(self@.memtable.map);
        let mut i: usize = 0;
        proof {
            lemma_wf_is_listed(&self.memtable);
            assert(pairs.subrange(0, 0) == Seq::<(Seq<u8>, Seq<u8>)>::empty());
        }
        while i < entries.len()
            invariant
                i <= entries@.len(),
                pairs_of(entries@) == pairs,
                sorted_pairs(pairs),
                old(self)@.memtable.map == pair_map(pairs),
                sstable.wf(),
                sstable@.created_at == stamp,
                sstable@.file_path == joined(self.dir.spec_sst(), file_name_of(stamp)),
                sstable@.blocks == filled(pairs.subrange(0, i as int)),
                forall|j: int|
                    0 <= j < i ==> entry_size((#[trigger] pairs[j]).0, pairs[j].1) <= BLOCK_SIZE,
                *self == *old(self),
                old(self).wf(),
            decreases entries@.len() - i,
        {
            let key = slice_to_vec(entries[i].0.as_slice());
            let value = slice_to_vec(entries[i].1.as_slice());
            proof {
                assert(pairs[i as int] == (entries@[i as int].0@, entries@[i as int].1@));
                assert(pairs.subrange(0, i + 1).drop_last() == pairs.subrange(0, i as int));
                assert(pairs.subrange(0, i + 1).last() == pairs[i as int]);
                lemma_pair_map_at(pairs, i as int);
            }
            match sstable.set(key, value) {
                Ok(()) => {},
                Err(error) => {
                    return Err(error);
                },
            }
            i = i + 1;
        }
        proof {
            assert(pairs.subrange(0, i as int) == pairs);
            lemma_filled(pairs);
            assert forall|key: Seq<u8>| #[trigger]
                pair_map(pairs).dom().contains(key) implies entry_size(key, pair_map(pairs)[key])
                <= BLOCK_SIZE by {
                let at = crate::order::place_of(pairs, crate::memtable::pair_key(), key);
                assert(crate::order::holds(pairs, crate::memtable::pair_key(), key));
                assert(pair_map(pairs)[key] == pairs[at].1);
            }
        }
        let ghost table = table_view(sstable@);
        self.sstables.insert(0, sstable);
        self.memtable.clear();
        proof {
            assert(self@.tables =~= seq![table] + tables);
            assert forall|a: int, b: int| 0 <= a < b < self@.tables.len() implies (
            #[trigger] self@.tables[a]).created_at > (#[trigger] self@.tables[b]).created_at by {
                if a == 0 {
                    assert(self@.tables[b] == tables[b - 1]);
                    if b - 1 > 0 {
                        assert(tables[0].created_at > tables[b - 1].created_at);
                    }
                } else {
                    assert(self@.tables[a] == tables[a - 1]);
                    assert(self@.tables[b] == tables[b - 1]);
                    assert(tables[a - 1].created_at > tables[b - 1].created_at);
                }
            }
            assert forall|j: int| 0 <= j < self.sstables@.len() implies {
                &&& (#[trigger] self.sstables@[j]).wf()
                &&& distinct_keys(self.sstables@[j]@.blocks)
                &&& self.sstables@[j]@.file_path == joined(
                    self.dir.spec_sst(),
                    file_name_of(self.sstables@[j]@.created_at),
                )
            } by {
                if j > 0 {
                    assert(self.sstables@[j] == old(self).sstables@[j - 1]);
                }
            }
        }
        Ok(())
    }
}

/// What opening promises of the engine that it opens from the log image
/// `wal_image`: the engine holds that image, has no tables, and its buffer is
/// what the replay of the image's records gives.
pub open spec fn opened(
    engine: StorageEngine,
    capacity: nat,
    num_bits: usize,
    num_hashes: usize,
    wal_image: Seq<u8>,
) -> bool {
    &&& engine.wf()
    &&& engine@.wal == wal_image
    &&& engine@.tables == Seq::<TableView>::empty()
    &&& parse_log(wal_image) is Ok
    &&& engine@.memtable == replayed_buffer(
        MemView::fresh(capacity, num_bits, num_hashes),
        parse_log(wal_image).unwrap(),
    )
}

/// When opening is refused: where the log image is malformed, and then with
/// `Corruption` and the defect of its first malformed frame.
pub open spec fn refused(error: Error, wal_image: Seq<u8>) -> bool {
    match parse_log(wal_image) {
        Err(defect) => error == Error::Corruption(defect),
        Ok(_) => false,
    }
}

/// The keys and values of the first records are no more than those of all.
pub proof fn lemma_payload_prefix(records: Seq<Record>, count: int)
    requires
        0 <= count <= records.len(),
    ensures
        payload(records.subrange(0, count)) <= payload(records),
    decreases records.len() - count,
{
    if count < records.len() {
        lemma_payload_prefix(records, count + 1);
        assert(records.subrange(0, count + 1).drop_last() == records.subrange(0, count));
    } else {
        assert(records.subrange(0, count) == records);
    }
}

/// The keys and values of records are no more than the records' log.
pub proof fn lemma_payload_within_log(records: Seq<Record>)
    ensures
        payload(records) <= crate::write_ahead_log::log_bytes(records).len(),
    decreases records.len(),
{
    if records.len() > 0 {
        let front = records.drop_last();
        lemma_payload_within_log(front);
        crate::write_ahead_log::lemma_log_push(front, records.last());
        assert(front.push(records.last()) == records);
        vstd::bytes::lemma_auto_spec_u32_to_from_le_bytes();
    }
}

} // verus!
