use lsmdb::api::{join_path, DirPath, SizeUnit, StorageEngine};
use lsmdb::error::{Error, WalError};
use lsmdb::write_ahead_log::{replay, EntryKind, WriteAheadLogEntry};

/// The filter dimensions that a thousand entries and a false-positive rate
/// of one in ten thousand ask for.
const BITS: usize = 19171;
const HASHES: usize = 14;

fn open(capacity: usize, wal_image: Vec<u8>) -> Result<StorageEngine, Error> {
    StorageEngine::with_capacity_and_rate(
        DirPath::build("db"),
        SizeUnit::Bytes,
        capacity,
        BITS,
        HASHES,
        wal_image,
    )
}

fn fresh(capacity: usize) -> StorageEngine {
    match open(capacity, Vec::new()) {
        Ok(engine) => engine,
        Err(error) => panic!("an empty log was refused: {:?}", error),
    }
}

fn restart(engine: &StorageEngine) -> Result<StorageEngine, Error> {
    open(engine.memtable.capacity(), engine.wal.as_bytes().to_vec())
}

fn text(value: Option<Vec<u8>>) -> Option<String> {
    value.map(|bytes| String::from_utf8_lossy(&bytes).to_string())
}

fn some(value: &str) -> Option<String> {
    Some(value.to_string())
}

#[test]
fn a_write_is_read_back_and_survives_a_restart() {
    let mut engine = fresh(1000);
    assert_eq!(engine.put(b"a", b"1"), Ok(()));
    assert_eq!(text(engine.get(b"a")), some("1"));

    let engine = restart(&engine).unwrap();
    assert_eq!(text(engine.get(b"a")), some("1"));
}

#[test]
fn a_removal_is_seen_and_survives_a_restart() {
    let mut engine = fresh(1000);
    assert_eq!(engine.put(b"a", b"1"), Ok(()));
    assert_eq!(engine.put(b"b", b"2"), Ok(()));
    assert_eq!(engine.remove(b"a"), Ok(()));
    assert_eq!(engine.get(b"a"), None);
    assert_eq!(text(engine.get(b"b")), some("2"));

    let engine = restart(&engine).unwrap();
    assert_eq!(engine.get(b"a"), None);
    assert_eq!(text(engine.get(b"b")), some("2"));
}

#[test]
fn an_update_in_the_same_buffer_replaces_the_value() {
    // The filter knows no removal and still reports the key after it was
    // removed: the write that follows goes through the ordered map.
    let mut engine = fresh(1000);
    assert_eq!(engine.put(b"k", b"v1"), Ok(()));
    assert_eq!(engine.update(b"k", b"v2"), Ok(()));
    assert_eq!(text(engine.get(b"k")), some("v2"));
    assert_eq!(engine.memtable.entry_count(), 1);
    assert_eq!(engine.memtable.size(), 3);
    // The log gained the removal and then the write.
    assert_eq!(
        replay(engine.wal.as_bytes()).unwrap(),
        vec![
            WriteAheadLogEntry::new(EntryKind::Insert, b"k".to_vec(), b"v1".to_vec()),
            WriteAheadLogEntry::new(EntryKind::Remove, b"k".to_vec(), Vec::new()),
            WriteAheadLogEntry::new(EntryKind::Insert, b"k".to_vec(), b"v2".to_vec()),
        ]
    );
    let engine = restart(&engine).unwrap();
    assert_eq!(text(engine.get(b"k")), some("v2"));
}

#[test]
fn an_update_of_an_absent_key_writes_it() {
    let mut engine = fresh(1000);
    assert_eq!(engine.update(b"k", b"v"), Ok(()));
    assert_eq!(text(engine.get(b"k")), some("v"));
    // Nothing was removed, so only the write was logged.
    assert_eq!(replay(engine.wal.as_bytes()).unwrap().len(), 1);
}

#[test]
fn an_update_across_a_flush_replaces_the_value() {
    let mut engine = fresh(2);
    assert_eq!(engine.put(b"k", b"v1"), Ok(()));
    // The buffer is full: this write flushes it first.
    assert_eq!(engine.put(b"b", b"2"), Ok(()));
    assert_eq!(engine.sstables.len(), 1);
    // The key is in the table now; the buffer is full again.
    assert_eq!(engine.update(b"k", b"v2"), Ok(()));
    assert_eq!(text(engine.get(b"k")), some("v2"));
    assert_eq!(text(engine.get(b"b")), some("2"));
    assert_eq!(engine.sstables.len(), 2);
}

#[test]
fn a_full_buffer_is_flushed_by_the_next_write() {
    let mut engine = fresh(20);
    let keys = ["apple", "lime", "orange", "pear"];
    for key in keys {
        assert!(engine.memtable.size() < engine.memtable.capacity());
        assert_eq!(engine.put(key.as_bytes(), b"x"), Ok(()));
    }
    // 6 + 5 + 7 + 5 bytes: the buffer has reached its capacity.
    assert_eq!(engine.memtable.size(), 23);
    assert!(engine.memtable.size() >= engine.memtable.capacity());
    assert_eq!(engine.sstables.len(), 0);

    assert_eq!(engine.put_at(b"next", b"y", 1_700_000_000_123), Ok(()));
    assert_eq!(engine.sstables.len(), 1);
    assert_eq!(engine.sstables[0].file_path(), "db/sst/sstable_1700000000123.dat");
    assert_eq!(engine.sstables[0].created_at(), 1_700_000_000_123);
    assert_eq!(engine.memtable.entry_count(), 1);
    assert_eq!(engine.memtable.size(), 5);
    assert_eq!(engine.memtable.capacity(), 20);
    assert_eq!(engine.memtable.filter_bits(), BITS);
    assert_eq!(engine.memtable.filter_hashes(), HASHES);
    for key in keys {
        assert_eq!(text(engine.get(key.as_bytes())), some("x"));
        assert_eq!(text(engine.sstables[0].get(key.as_bytes().to_vec())), some("x"));
    }
    assert_eq!(text(engine.get(b"next")), some("y"));
    assert_eq!(engine.sstables[0].get(b"next".to_vec()), None);
}

#[test]
fn a_log_that_is_cut_in_a_record_is_reported_as_corrupt() {
    let mut engine = fresh(1_000_000);
    for i in 0..100 {
        let key = format!("key{}", i);
        let value = format!("value{}", i);
        assert_eq!(engine.put(key.as_bytes(), value.as_bytes()), Ok(()));
    }
    let image = engine.wal.as_bytes().to_vec();
    assert!(open(1_000_000, image.clone()).is_ok());

    // The last record is "key99"/"value99": 13 + 5 + 7 bytes.
    let cut_in_payload = image[..image.len() - 3].to_vec();
    assert_eq!(
        open(1_000_000, cut_in_payload).err(),
        Some(Error::Corruption(WalError::LengthMismatch))
    );
    let cut_in_header = image[..image.len() - 20].to_vec();
    assert_eq!(
        open(1_000_000, cut_in_header).err(),
        Some(Error::Corruption(WalError::TooShort))
    );
}

#[test]
fn clear_empties_the_log_and_drops_the_tables() {
    let mut engine = fresh(4);
    assert_eq!(engine.put(b"flushed", b"1"), Ok(()));
    assert_eq!(engine.put(b"buffered", b"2"), Ok(()));
    assert_eq!(engine.sstables.len(), 1);
    assert!(engine.wal.len() > 0);

    let engine = engine.clear();
    assert_eq!(engine.wal.len(), 0);
    assert_eq!(engine.sstables.len(), 0);
    assert_eq!(engine.memtable.entry_count(), 0);
    assert_eq!(engine.memtable.capacity(), 4);
    assert_eq!(engine.get(b"flushed"), None);
    assert_eq!(engine.get(b"buffered"), None);
    assert_eq!(engine.dir.get_dir(), "db");
}

#[test]
fn a_cleared_engine_takes_the_same_keys_again() {
    let mut engine = fresh(1000);
    assert_eq!(engine.put(b"k", b"v1"), Ok(()));
    let mut engine = engine.clear();
    assert_eq!(engine.put(b"k", b"v2"), Ok(()));
    assert_eq!(text(engine.get(b"k")), some("v2"));
}

#[test]
fn a_write_of_a_live_key_replaces_its_value() {
    let mut engine = fresh(1000);
    assert_eq!(engine.put(b"k", b"v1"), Ok(()));
    assert_eq!(engine.put(b"other", b"x"), Ok(()));
    assert_eq!(engine.put(b"k", b"longer"), Ok(()));
    assert_eq!(text(engine.get(b"k")), some("longer"));
    assert_eq!(text(engine.get(b"other")), some("x"));
    assert_eq!(engine.memtable.entry_count(), 2);
    assert_eq!(engine.memtable.size(), 1 + 6 + 5 + 1);
    assert_eq!(replay(engine.wal.as_bytes()).unwrap().len(), 3);
}

#[test]
fn a_write_after_a_removal_is_read_back() {
    let mut engine = fresh(1000);
    assert_eq!(engine.put(b"k", b"v1"), Ok(()));
    assert_eq!(engine.remove(b"k"), Ok(()));
    assert_eq!(engine.get(b"k"), None);
    assert_eq!(engine.put(b"k", b"v2"), Ok(()));
    assert_eq!(text(engine.get(b"k")), some("v2"));
}

#[test]
fn the_last_record_of_a_key_decides_in_a_replay() {
    let mut engine = fresh(1000);
    assert_eq!(engine.put(b"k", b"v1"), Ok(()));
    assert_eq!(engine.put(b"k", b"v2"), Ok(()));
    let restarted = restart(&engine).unwrap();
    assert_eq!(text(restarted.get(b"k")), some("v2"));
    assert_eq!(restarted.memtable.entry_count(), 1);
    assert_eq!(restarted.memtable.size(), 3);
}

#[test]
fn recover_memtable_lets_an_insert_follow_a_remove() {
    let entries = vec![
        WriteAheadLogEntry::new(EntryKind::Insert, vec![107], vec![1]),
        WriteAheadLogEntry::new(EntryKind::Remove, vec![107], Vec::new()),
        WriteAheadLogEntry::new(EntryKind::Insert, vec![107], vec![2]),
    ];
    let memtable =
        StorageEngine::recover_memtable(entries, SizeUnit::Bytes, 1024, BITS, HASHES).unwrap();
    assert_eq!(memtable.entries(), vec![(vec![107], vec![2])]);
    assert_eq!(memtable.get(vec![107]), Some(vec![2]));
}

#[test]
fn the_log_holds_every_write_and_every_removal_that_found_its_key() {
    let mut engine = fresh(1000);
    assert_eq!(engine.put(b"a", b"1"), Ok(()));
    assert_eq!(engine.remove(b"missing"), Ok(()));
    assert_eq!(engine.remove(b"a"), Ok(()));
    let mut expected =
        WriteAheadLogEntry::new(EntryKind::Insert, b"a".to_vec(), b"1".to_vec()).serialize();
    expected.extend_from_slice(
        &WriteAheadLogEntry::new(EntryKind::Remove, b"a".to_vec(), Vec::new()).serialize(),
    );
    assert_eq!(engine.wal.as_bytes(), expected.as_slice());
}

#[test]
fn a_removal_of_an_absent_key_changes_nothing() {
    let mut engine = fresh(1000);
    assert_eq!(engine.put(b"a", b"1"), Ok(()));
    let log_before = engine.wal.as_bytes().to_vec();
    assert_eq!(engine.remove(b"b"), Ok(()));
    assert_eq!(engine.wal.as_bytes(), log_before.as_slice());
    assert_eq!(text(engine.get(b"a")), some("1"));
}

#[test]
fn a_removal_reaches_into_the_tables() {
    let mut engine = fresh(1);
    assert_eq!(engine.put(b"a", b"1"), Ok(()));
    assert_eq!(engine.put(b"b", b"2"), Ok(()));
    assert_eq!(text(engine.sstables[0].get(b"a".to_vec())), some("1"));
    let log_before = engine.wal.len();

    assert_eq!(engine.remove(b"a"), Ok(()));
    assert_eq!(engine.get(b"a"), None);
    assert_eq!(engine.sstables[0].get(b"a".to_vec()), None);
    assert_eq!(text(engine.get(b"b")), some("2"));
    assert_eq!(engine.wal.len(), log_before + 14);
}

#[test]
fn a_removal_from_the_buffer_leaves_the_tables_as_they_are() {
    // The key is written, flushed, and written again: it is held twice.
    let mut engine = fresh(1);
    assert_eq!(engine.put(b"k", b"old"), Ok(()));
    assert_eq!(engine.put(b"k", b"new"), Ok(()));
    assert_eq!(text(engine.sstables[0].get(b"k".to_vec())), some("old"));
    assert_eq!(text(engine.get(b"k")), some("new"));
    let table_before = engine.sstables[0].blocks()[0].data().to_vec();

    // The buffer holds the key: only the buffer loses it.
    assert_eq!(engine.remove(b"k"), Ok(()));
    assert_eq!(engine.memtable.get(b"k".to_vec()), None);
    assert_eq!(engine.sstables[0].blocks()[0].data(), table_before.as_slice());
    assert_eq!(text(engine.get(b"k")), some("old"));

    // The buffer holds it no more: now the table loses it.
    assert_eq!(engine.remove(b"k"), Ok(()));
    assert_eq!(engine.sstables[0].get(b"k".to_vec()), None);
    assert_eq!(engine.get(b"k"), None);
    assert_eq!(replay(engine.wal.as_bytes()).unwrap().len(), 4);
}

#[test]
fn a_removal_takes_the_key_from_the_first_table_that_holds_it() {
    let mut engine = fresh(1);
    assert_eq!(engine.put_at(b"k", b"first", 10), Ok(()));
    assert_eq!(engine.put_at(b"k", b"second", 20), Ok(()));
    assert_eq!(engine.put_at(b"other", b"x", 30), Ok(()));
    assert_eq!(engine.sstables.len(), 2);
    assert_eq!(text(engine.get(b"k")), some("second"));

    assert_eq!(engine.remove(b"k"), Ok(()));
    // The newest table held the key and lost it; the older one keeps it.
    assert_eq!(engine.sstables[0].get(b"k".to_vec()), None);
    assert_eq!(text(engine.sstables[1].get(b"k".to_vec())), some("first"));
    assert_eq!(text(engine.get(b"k")), some("first"));
    assert_eq!(text(engine.get(b"other")), some("x"));
}

#[test]
fn tables_are_searched_newest_first() {
    let mut engine = fresh(1);
    assert_eq!(engine.put_at(b"k", b"first", 0), Ok(()));
    // Flushes "first" into a table created at 200.
    assert_eq!(engine.put_at(b"k", b"second", 200), Ok(()));
    // Flushes "second" at 100, which is not after 200: the table is stamped
    // with 201 and stands in front.
    assert_eq!(engine.put_at(b"other", b"x", 100), Ok(()));
    let created: Vec<i64> = engine.sstables.iter().map(|table| table.created_at()).collect();
    assert_eq!(created, vec![201, 200]);
    // Flushes "other" into a table created at 300: the newest.
    assert_eq!(engine.put_at(b"last", b"y", 300), Ok(()));
    let created: Vec<i64> = engine.sstables.iter().map(|table| table.created_at()).collect();
    assert_eq!(created, vec![300, 201, 200]);
    assert_eq!(text(engine.get(b"k")), some("second"));
}

#[test]
fn tables_that_are_flushed_at_the_same_time_get_files_of_their_own() {
    let mut engine = fresh(1);
    assert_eq!(engine.put_at(b"k", b"first", 7), Ok(()));
    assert_eq!(engine.put_at(b"k", b"second", 7), Ok(()));
    assert_eq!(engine.put_at(b"other", b"x", 7), Ok(()));
    assert_eq!(engine.sstables.len(), 2);
    assert_eq!(engine.sstables[0].file_path(), "db/sst/sstable_8.dat");
    assert_eq!(engine.sstables[1].file_path(), "db/sst/sstable_7.dat");
    assert_eq!(text(engine.sstables[0].get(b"k".to_vec())), some("second"));
    assert_eq!(text(engine.sstables[1].get(b"k".to_vec())), some("first"));
    assert_eq!(engine.remove(b"other"), Ok(()));
    assert_eq!(text(engine.get(b"k")), some("second"));
}

#[test]
fn an_entry_that_fits_no_block_stops_the_flush() {
    let mut engine = fresh(10);
    let large = vec![7u8; 5000];
    assert_eq!(engine.put(b"large", &large), Ok(()));
    assert_eq!(engine.get(b"large"), Some(large.clone()));
    let log_before = engine.wal.len();

    assert_eq!(engine.put(b"next", b"1"), Err(Error::BlockFull));
    assert_eq!(engine.sstables.len(), 0);
    assert_eq!(engine.memtable.entry_count(), 1);
    assert_eq!(engine.get(b"next"), None);
    assert_eq!(engine.get(b"large"), Some(large));
    // The write was logged before the flush was tried.
    assert_eq!(engine.wal.len(), log_before + 13 + 4 + 1);
}

#[test]
fn restart_rebuilds_the_buffer_from_all_records() {
    let mut engine = fresh(8);
    for (key, value) in [("a", "1"), ("bb", "22"), ("ccc", "333"), ("dddd", "4444")] {
        assert_eq!(engine.put(key.as_bytes(), value.as_bytes()), Ok(()));
    }
    assert_eq!(engine.remove(b"bb"), Ok(()));
    assert!(engine.sstables.len() > 0);

    let restarted = restart(&engine).unwrap();
    assert_eq!(restarted.sstables.len(), 0);
    assert_eq!(restarted.wal.as_bytes(), engine.wal.as_bytes());
    assert_eq!(restarted.memtable.entry_count(), 3);
    assert_eq!(restarted.memtable.size(), 2 + 6 + 8);
    for key in ["a", "bb", "ccc", "dddd", "e"] {
        assert_eq!(restarted.get(key.as_bytes()), engine.get(key.as_bytes()));
    }
}

#[test]
fn restart_returns_the_last_write_of_a_key_that_was_written_twice() {
    let mut engine = fresh(1);
    assert_eq!(engine.put(b"k", b"old"), Ok(()));
    // The buffer is full: this write flushes "old" into a table first.
    assert_eq!(engine.put(b"k", b"new"), Ok(()));
    assert_eq!(text(engine.get(b"k")), some("new"));
    let engine = restart(&engine).unwrap();
    assert_eq!(text(engine.get(b"k")), some("new"));
}

#[test]
fn a_log_of_an_unknown_kind_is_reported_as_corrupt() {
    let image = vec![13, 0, 0, 0, 9, 0, 0, 0, 0, 0, 0, 0, 0];
    assert_eq!(
        open(1000, image).err(),
        Some(Error::Corruption(WalError::InvalidKind))
    );
}

#[test]
fn new_opens_the_default_engine() {
    let engine = StorageEngine::new("store", Vec::new()).unwrap();
    assert_eq!(engine.memtable.capacity(), 1024 * 1024 * 1024);
    assert_eq!(engine.dir.get_dir(), "store");
    assert_eq!(engine.dir.wal_dir(), "store/wal");
    assert_eq!(engine.dir.sst_dir(), "store/sst");
    assert_eq!(engine.wal.len(), 0);
    assert_eq!(engine.sstables.len(), 0);
}

#[test]
fn empty_values_and_binary_keys_are_kept() {
    let mut engine = fresh(1000);
    assert_eq!(engine.put(&[0, 255, 10], b""), Ok(()));
    assert_eq!(engine.get(&[0, 255, 10]), Some(Vec::new()));
    let engine = restart(&engine).unwrap();
    assert_eq!(engine.get(&[0, 255, 10]), Some(Vec::new()));
}

#[test]
fn flush_memtable_moves_the_entries_into_a_table() {
    let mut engine = fresh(1000);
    assert_eq!(engine.put(b"b", b"2"), Ok(()));
    assert_eq!(engine.put(b"a", b"1"), Ok(()));
    assert_eq!(engine.flush_memtable(5), Ok(()));
    assert_eq!(engine.memtable.entry_count(), 0);
    assert_eq!(engine.memtable.size(), 0);
    assert_eq!(engine.sstables.len(), 1);
    assert_eq!(engine.sstables[0].blocks().len(), 1);
    // The entries went in ascending key order.
    assert_eq!(
        engine.sstables[0].blocks()[0].data(),
        &[1, 0, 0, 0, b'a', b'1', 1, 0, 0, 0, b'b', b'2']
    );
    assert_eq!(text(engine.get(b"a")), some("1"));
}

#[test]
fn recover_memtable_applies_the_records_in_order() {
    let entries = vec![
        WriteAheadLogEntry::new(EntryKind::Insert, b"a".to_vec(), b"1".to_vec()),
        WriteAheadLogEntry::new(EntryKind::Insert, b"b".to_vec(), b"2".to_vec()),
        WriteAheadLogEntry::new(EntryKind::Remove, b"a".to_vec(), Vec::new()),
        WriteAheadLogEntry::new(EntryKind::Remove, b"z".to_vec(), Vec::new()),
    ];
    let table =
        StorageEngine::recover_memtable(entries, SizeUnit::Kilobytes, 1, BITS, HASHES).unwrap();
    assert_eq!(table.capacity(), 1024);
    assert_eq!(table.entries(), vec![(b"b".to_vec(), b"2".to_vec())]);
    assert_eq!(table.size(), 2);
}

#[test]
fn directories_are_laid_out_under_the_root() {
    let dir = DirPath::build("/var/lib/lsmdb");
    assert_eq!(dir.get_dir(), "/var/lib/lsmdb");
    assert_eq!(dir.wal_dir(), "/var/lib/lsmdb/wal");
    assert_eq!(dir.sst_dir(), "/var/lib/lsmdb/sst");

    let dir = DirPath::build("data/");
    assert_eq!(dir.wal_dir(), "data/wal");
    assert_eq!(dir.sst_dir(), "data/sst");

    let dir = DirPath::build("");
    assert_eq!(dir.wal_dir(), "wal");
    assert_eq!(dir.sst_dir(), "sst");
}

#[test]
fn paths_are_joined_by_one_separator() {
    assert_eq!(join_path("a", "b"), "a/b");
    assert_eq!(join_path("a/", "b"), "a/b");
    assert_eq!(join_path("", "b"), "b");
    assert_eq!(join_path("/", "b"), "/b");
    assert_eq!(join_path("dir", "lsmdb_wal.bin"), "dir/lsmdb_wal.bin");
}

#[test]
fn units_convert_to_bytes() {
    assert_eq!(SizeUnit::Bytes.to_bytes(7), 7);
    assert_eq!(SizeUnit::Kilobytes.to_bytes(7), 7 * 1024);
    assert_eq!(SizeUnit::Megabytes.to_bytes(7), 7 * 1024 * 1024);
    assert_eq!(SizeUnit::Gigabytes.to_bytes(1), 1024 * 1024 * 1024);
    assert_eq!(SizeUnit::Gigabytes.to_bytes(0), 0);
}

#[test]
fn checked_conversion_reports_what_cannot_be_counted() {
    assert_eq!(SizeUnit::Kilobytes.checked_to_bytes(3), Some(3072));
    assert_eq!(SizeUnit::Bytes.checked_to_bytes(usize::MAX), Some(usize::MAX));
    assert_eq!(SizeUnit::Kilobytes.checked_to_bytes(usize::MAX), None);
    assert_eq!(SizeUnit::Kilobytes.checked_to_bytes(usize::MAX / 1024), Some(usize::MAX / 1024 * 1024));
    assert_eq!(SizeUnit::Kilobytes.checked_to_bytes(usize::MAX / 1024 + 1), None);
    assert_eq!(SizeUnit::Gigabytes.checked_to_bytes(usize::MAX / 2), None);
}

#[test]
fn a_removal_from_a_table_zeroes_the_entry() {
    let mut engine = fresh(1000);
    assert_eq!(engine.put(b"a", b"1"), Ok(()));
    assert_eq!(engine.put(b"b", b"2"), Ok(()));
    assert_eq!(engine.flush_memtable(5), Ok(()));

    assert_eq!(engine.remove(b"a"), Ok(()));
    assert_eq!(engine.sstables[0].blocks()[0].entry_count(), 1);
    assert_eq!(
        engine.sstables[0].blocks()[0].data(),
        &[0, 0, 0, 0, 0, 0, 1, 0, 0, 0, b'b', b'2']
    );
    assert_eq!(engine.get(b"a"), None);
    assert_eq!(text(engine.get(b"b")), some("2"));
}

#[test]
fn a_flush_opens_as_many_blocks_as_the_entries_need() {
    let mut engine = fresh(100_000);
    // Each entry takes 2000 bytes of a block: two fit into one, the third
    // opens the next.
    assert_eq!(engine.put(b"c", &[3u8; 1995]), Ok(()));
    assert_eq!(engine.put(b"a", &[1u8; 1995]), Ok(()));
    assert_eq!(engine.put(b"b", &[2u8; 1995]), Ok(()));
    assert_eq!(engine.flush_memtable(7), Ok(()));

    let table = &engine.sstables[0];
    assert_eq!(table.file_path(), "db/sst/sstable_7.dat");
    assert_eq!(table.blocks().len(), 2);
    assert_eq!(table.blocks()[0].entry_count(), 2);
    assert_eq!(table.blocks()[0].data().len(), 4000);
    assert_eq!(table.blocks()[1].entry_count(), 1);
    assert_eq!(table.blocks()[0].get_value(b"a"), Some(vec![1u8; 1995]));
    assert_eq!(table.blocks()[0].get_value(b"b"), Some(vec![2u8; 1995]));
    assert_eq!(table.blocks()[1].get_value(b"c"), Some(vec![3u8; 1995]));
    assert_eq!(engine.get(b"c"), Some(vec![3u8; 1995]));
}

#[test]
fn the_log_replays_to_the_live_buffer_after_any_calls_without_a_flush() {
    let mut engine = fresh(1000);
    assert_eq!(engine.put(b"a", b"1"), Ok(()));
    assert_eq!(engine.put(b"b", b"2"), Ok(()));
    assert_eq!(engine.put(b"a", b"11"), Ok(()));
    assert_eq!(engine.remove(b"b"), Ok(()));
    assert_eq!(engine.remove(b"missing"), Ok(()));
    assert_eq!(engine.update(b"c", b"3"), Ok(()));
    assert_eq!(engine.update(b"a", b"111"), Ok(()));
    assert_eq!(engine.put(b"b", b"22"), Ok(()));
    assert_eq!(engine.sstables.len(), 0);

    let restarted = restart(&engine).unwrap();
    assert_eq!(restarted.memtable.entries(), engine.memtable.entries());
    assert_eq!(restarted.memtable.size(), engine.memtable.size());
    assert_eq!(restarted.memtable.entry_count(), engine.memtable.entry_count());
    assert_eq!(
        engine.memtable.entries(),
        vec![
            (b"a".to_vec(), b"111".to_vec()),
            (b"b".to_vec(), b"22".to_vec()),
            (b"c".to_vec(), b"3".to_vec()),
        ]
    );
}

#[test]
fn a_restart_returns_what_the_engine_returned_after_flushes() {
    let mut engine = fresh(4);
    let calls = [("a", "1"), ("bb", "22"), ("a", "333"), ("cc", "4"), ("bb", "5"), ("d", "6")];
    for (key, value) in calls {
        assert_eq!(engine.put(key.as_bytes(), value.as_bytes()), Ok(()));
    }
    assert_eq!(engine.remove(b"cc"), Ok(()));
    assert_eq!(engine.update(b"d", b"66"), Ok(()));
    assert!(engine.sstables.len() > 1);
    assert_eq!(text(engine.get(b"a")), some("333"));
    assert_eq!(text(engine.get(b"bb")), some("5"));
    assert_eq!(engine.get(b"cc"), None);
    assert_eq!(text(engine.get(b"d")), some("66"));

    let restarted = restart(&engine).unwrap();
    for key in ["a", "bb", "cc", "d", "e"] {
        assert_eq!(restarted.get(key.as_bytes()), engine.get(key.as_bytes()));
    }
    // The live buffer is a part of what the log replays to.
    for (key, value) in engine.memtable.entries() {
        assert_eq!(restarted.memtable.get(key), Some(value));
    }
}

#[test]
fn a_flush_stamps_the_table_after_the_newest_one() {
    let mut engine = fresh(1000);
    assert_eq!(engine.put(b"a", b"1"), Ok(()));
    assert_eq!(engine.flush_memtable(50), Ok(()));
    assert_eq!(engine.put(b"b", b"2"), Ok(()));
    assert_eq!(engine.flush_memtable(50), Ok(()));
    assert_eq!(engine.put(b"c", b"3"), Ok(()));
    assert_eq!(engine.flush_memtable(10), Ok(()));
    let created: Vec<i64> = engine.sstables.iter().map(|table| table.created_at()).collect();
    assert_eq!(created, vec![52, 51, 50]);
    assert_eq!(text(engine.get(b"a")), some("1"));
    assert_eq!(text(engine.get(b"c")), some("3"));
}

#[test]
fn a_log_that_is_cut_anywhere_inside_a_record_opens_no_engine() {
    let mut engine = fresh(1000);
    assert_eq!(engine.put(b"a", b"1"), Ok(()));
    assert_eq!(engine.put(b"key", b"value"), Ok(()));
    let image = engine.wal.as_bytes().to_vec();
    // The last frame has 13 + 3 + 5 bytes.
    let start = image.len() - 21;
    for cut in 1..21 {
        let expected = if cut < 13 {
            WalError::TooShort
        } else {
            WalError::LengthMismatch
        };
        assert_eq!(
            open(1000, image[..start + cut].to_vec()).err(),
            Some(Error::Corruption(expected))
        );
    }
    // Cut between two records, the log holds the first record and no more.
    let whole = open(1000, image[..start].to_vec()).unwrap();
    assert_eq!(text(whole.get(b"a")), some("1"));
    assert_eq!(whole.get(b"key"), None);
}
