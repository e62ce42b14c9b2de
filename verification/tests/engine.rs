use lsmdb::engine::{StorageEngine, StorageEngineEntry};
use lsmdb::helper::{current_millis, generate_timestamp, millis_from, timestamp_from};
use lsmdb::wal::{encode_delete, encode_set};

#[test]
fn test_storage_engine() {
    // Create a new storage engine instance
    let mut engine = StorageEngine::new(&Vec::new());

    // Write data to the storage engine
    let result = engine.set(b"key1", b"value1");
    assert_eq!(result, Ok(1));

    // Read data from the storage engine
    let entry = engine.get(b"key1");
    assert_eq!(
        entry.clone(),
        Some(StorageEngineEntry {
            key: b"key1".to_vec(),
            value: b"value1".to_vec(),
            timestamp: entry.unwrap().timestamp()
        })
    );

    // Delete data from the storage engine
    let result = engine.delete(b"key1");
    assert_eq!(result, Ok(1));

    // Verify that the data is deleted
    let entry = engine.get(b"key1");
    assert_eq!(entry, None);
}

#[test]
fn test_storage_engine_concurrent_writes() {
    // The engine has one owner, so writers take their turns: the writes
    // come one after the other.
    let mut engine = StorageEngine::new(&Vec::new());

    let num_keys = 10;
    for i in 0..num_keys {
        let key = format!("key{}", i);
        let value = format!("value{}", i);
        assert_eq!(engine.set(key.as_bytes(), value.as_bytes()), Ok(1));
    }

    // Verify that all writes were successful
    for i in 0..num_keys {
        let key = format!("key{}", i);
        let value = format!("value{}", i);

        let entry = engine.get(key.as_bytes()).unwrap();
        assert_eq!(
            entry,
            StorageEngineEntry {
                key: key.as_bytes().to_vec(),
                value: value.as_bytes().to_vec(),
                timestamp: entry.timestamp,
            }
        );
    }
}

#[test]
fn test_storage_engine_delete() {
    // Create a new storage engine instance
    let mut engine = StorageEngine::new(&Vec::new());

    // Write data to the storage engine
    engine.set(b"key1", b"value1").expect("Failed to set data");
    engine.set(b"key2", b"value2").expect("Failed to set data");

    // Verify that the data exists
    let entry1 = engine.get(b"key1").expect("Failed to get data");
    let entry2 = engine.get(b"key2").expect("Failed to get data");
    assert_eq!(entry1.value, b"value1");
    assert_eq!(entry2.value, b"value2");

    // Delete an entry from the storage engine
    engine.delete(b"key1").expect("Failed to delete data");

    // Verify that the deleted entry is no longer accessible
    let deleted_entry = engine.get(b"key1");
    assert!(deleted_entry.is_none());

    // Verify that the remaining entry still exists
    let remaining_entry = engine.get(b"key2").expect("Failed to get data");
    assert_eq!(remaining_entry.value, b"value2");
}

#[test]
fn entry_getters_return_the_fields() {
    let entry = StorageEngineEntry {
        key: b"k".to_vec(),
        value: b"v".to_vec(),
        timestamp: 42,
    };
    assert_eq!(entry.key(), b"k");
    assert_eq!(entry.value(), b"v");
    assert_eq!(entry.timestamp(), 42);
}

#[test]
fn set_at_logs_and_applies_the_write() {
    let mut engine = StorageEngine::new(&Vec::new());
    engine.set_at(b"Lime", b"Lime Smoothie", 7);
    assert_eq!(engine.wal.as_bytes(), encode_set(b"Lime", b"Lime Smoothie", 7).as_slice());
    assert_eq!(
        engine.get(b"Lime"),
        Some(StorageEngineEntry {
            key: b"Lime".to_vec(),
            value: b"Lime Smoothie".to_vec(),
            timestamp: 7
        })
    );
    assert_eq!(engine.mem_table.size(), 4 + 13 + 17);
}

#[test]
fn delete_at_logs_and_applies_the_deletion() {
    let mut engine = StorageEngine::new(&Vec::new());
    engine.set_at(b"Lime", b"Lime Smoothie", 7);
    engine.delete_at(b"Lime", 9);
    let mut expected = encode_set(b"Lime", b"Lime Smoothie", 7);
    expected.extend_from_slice(&encode_delete(b"Lime", 9));
    assert_eq!(engine.wal.as_bytes(), expected.as_slice());
    assert_eq!(engine.get(b"Lime"), None);
    let tombstone = engine.mem_table.get(b"Lime").unwrap();
    assert_eq!(tombstone.value, None);
    assert_eq!(tombstone.timestamp, 9);
    assert!(tombstone.deleted);
    assert_eq!(engine.mem_table.size(), 4 + 17);
}

#[test]
fn an_engine_restarts_from_its_log() {
    let mut engine = StorageEngine::new(&Vec::new());
    engine.set_at(b"a", b"1", 1);
    engine.set_at(b"b", b"2", 2);
    engine.delete_at(b"a", 3);
    let image = engine.wal.as_bytes().to_vec();

    let restarted = StorageEngine::new(&vec![image.clone()]);
    assert_eq!(restarted.get(b"a"), None);
    assert_eq!(
        restarted.get(b"b"),
        Some(StorageEngineEntry {
            key: b"b".to_vec(),
            value: b"2".to_vec(),
            timestamp: 2
        })
    );
    assert_eq!(restarted.wal.as_bytes(), image.as_slice());
    assert_eq!(restarted.mem_table.size(), engine.mem_table.size());
}

#[test]
fn timestamps_do_not_run_backwards_by_much() {
    let first = generate_timestamp();
    let second = generate_timestamp();
    // After 2001 and before 2286, in microseconds.
    assert!(first > 1_000_000_000_000_000);
    assert!(second < 10_000_000_000_000_000);
}

#[test]
fn a_reading_of_the_clock_is_stamped_with_its_microseconds() {
    assert_eq!(timestamp_from(Some(1_700_000_000_123_456)), 1_700_000_000_123_456);
    assert_eq!(timestamp_from(Some(0)), 0);
    assert_eq!(timestamp_from(Some(u128::MAX)), u128::MAX);
}

#[test]
fn a_clock_before_the_epoch_is_stamped_with_zero() {
    assert_eq!(timestamp_from(None), 0);
}

#[test]
fn microseconds_are_turned_into_whole_milliseconds() {
    assert_eq!(millis_from(1_700_000_000_123_456), 1_700_000_000_123);
    assert_eq!(millis_from(999), 0);
    assert_eq!(millis_from(1000), 1);
    assert_eq!(millis_from(u128::MAX), i64::MAX);
    assert_eq!(millis_from(9_223_372_036_854_775_807_000), i64::MAX);
    assert_eq!(millis_from(9_223_372_036_854_775_806_999), i64::MAX - 1);
}

#[test]
fn the_current_time_is_not_negative() {
    assert!(current_millis() >= 0);
}

#[test]
fn the_size_follows_every_write_and_deletion() {
    let mut engine = StorageEngine::new(&Vec::new());
    assert_eq!(engine.mem_table.size(), 0);
    engine.set_at(b"k", b"value", 1);
    assert_eq!(engine.mem_table.size(), 1 + 5 + 17);
    engine.set_at(b"k", b"v", 2);
    assert_eq!(engine.mem_table.size(), 1 + 1 + 17);
    assert_eq!(engine.set(b"other", b"x"), Ok(1));
    assert_eq!(engine.mem_table.size(), 19 + 5 + 1 + 17);
    engine.delete_at(b"k", 3);
    assert_eq!(engine.mem_table.size(), 1 + 17 + 23);
    assert_eq!(engine.delete(b"missing"), Ok(1));
    assert_eq!(engine.mem_table.size(), 18 + 23 + 7 + 17);
}
