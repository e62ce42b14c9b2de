use lsmdb::api::SizeUnit;
use lsmdb::error::Error;
use lsmdb::memtable::{
    expected_entries, MemTable, DEFAULT_FILTER_BITS, DEFAULT_FILTER_HASHES,
    DEFAULT_MEMTABLE_CAPACITY,
};

fn kv(k: &str, v: &str) -> (Vec<u8>, Vec<u8>) {
    (k.as_bytes().to_vec(), v.as_bytes().to_vec())
}

fn generate_dummy_kv_pairs() -> Vec<(Vec<u8>, Vec<u8>)> {
    let pairs = vec![
        kv("key1", "value1"),
        kv("key2", "value2"),
        kv("key3", "value3"),
    ];

    pairs
}

/// A small table with a filter of the dimensions that a thousand entries
/// and a false-positive rate of one in ten thousand ask for.
fn small_table(capacity: usize) -> MemTable {
    MemTable::with_capacity_and_rate(SizeUnit::Bytes, capacity, 19171, 14)
}

#[test]
fn create_empty_memtable() {
    let m = MemTable::new();
    assert_eq!(m.size(), 0);
    assert_eq!(m.entry_count(), 0);
}

#[test]
fn create_single_entry() {
    let mut m = MemTable::new();

    let (key, value) = generate_dummy_kv_pairs()
        .pop()
        .expect("Failed to get first key-value pair");

    let _ = m.set(key.clone(), value.clone());

    assert_eq!(m.entry_count(), 1);
    assert_eq!(m.size(), key.len() + value.len());

    assert_eq!(m.get(key).unwrap(), value);
}

#[test]
fn set_and_get() {
    let mut m = MemTable::new();

    // setup dummy key-value pairs
    let kv = generate_dummy_kv_pairs();

    // set all dummy key-value pairs to mem-table
    let mut size = 0;
    kv.iter().for_each(|(key, value)| {
        let _ = m.set(key.clone(), value.clone());

        size += key.len() + value.len();

        assert_eq!(m.get(key.clone()).unwrap(), value.clone());
    });

    assert_eq!(m.entry_count(), kv.len());
    assert_eq!(m.size(), size);
}

#[test]
fn set_and_remove() {
    let mut m = MemTable::new();

    let kv = generate_dummy_kv_pairs();

    let mut size = 0;

    // set key-value
    kv.iter().for_each(|(key, value)| {
        let _ = m.set(key.clone(), value.clone());
        size += key.len() + value.len();
        assert_eq!(m.size(), size);
    });

    // remove key-value
    kv.iter().for_each(|(key, value)| {
        let _ = m.remove(key.clone());
        size -= key.len() + value.len();
        assert_eq!(m.size(), size);
    });

    assert_eq!(m.size(), 0);
}

#[test]
fn the_default_table_has_the_default_dimensions() {
    let m = MemTable::new();
    assert_eq!(m.capacity(), DEFAULT_MEMTABLE_CAPACITY);
    assert_eq!(m.capacity(), 1024 * 1024 * 1024);
    assert_eq!(m.filter_bits(), DEFAULT_FILTER_BITS);
    assert_eq!(m.filter_hashes(), DEFAULT_FILTER_HASHES);
    assert_eq!(m.size_unit(), SizeUnit::Bytes);
}

#[test]
fn the_default_filter_is_the_one_for_a_rate_of_one_in_ten_thousand() {
    let num_elements = expected_entries(DEFAULT_MEMTABLE_CAPACITY);
    assert_eq!(num_elements, 10_737_418);
    let rate: f64 = 0.0001;
    let num_bits = (-((num_elements as f64) * rate.ln()) / (2.0_f64.ln().powi(2))).ceil();
    let num_hashes = ((num_bits / num_elements as f64) * 2.0_f64.ln()).ceil();
    assert_eq!(num_bits as usize, DEFAULT_FILTER_BITS);
    assert_eq!(num_hashes as usize, DEFAULT_FILTER_HASHES);
}

#[test]
fn the_capacity_is_counted_in_bytes() {
    let m = MemTable::with_capacity_and_rate(SizeUnit::Kilobytes, 3, 64, 2);
    assert_eq!(m.capacity(), 3 * 1024);
    assert_eq!(m.size_unit(), SizeUnit::Bytes);
    let m = MemTable::with_capacity_and_rate(SizeUnit::Megabytes, 2, 64, 2);
    assert_eq!(m.capacity(), 2 * 1024 * 1024);
    assert_eq!(m.filter_bits(), 64);
    assert_eq!(m.filter_hashes(), 2);
}

#[test]
fn a_key_cannot_be_set_twice() {
    let mut m = small_table(1000);
    assert_eq!(m.set(b"k".to_vec(), b"v1".to_vec()), Ok(()));
    assert_eq!(m.set(b"k".to_vec(), b"v2".to_vec()), Err(Error::AlreadyExists));
    assert_eq!(m.get(b"k".to_vec()), Some(b"v1".to_vec()));
    assert_eq!(m.entry_count(), 1);
    assert_eq!(m.size(), 3);
}

#[test]
fn a_removed_key_stays_refused() {
    let mut m = small_table(1000);
    assert_eq!(m.set(b"k".to_vec(), b"v1".to_vec()), Ok(()));
    assert_eq!(m.remove(b"k".to_vec()), Some((b"k".to_vec(), b"v1".to_vec())));
    assert_eq!(m.get(b"k".to_vec()), None);
    assert_eq!(m.set(b"k".to_vec(), b"v2".to_vec()), Err(Error::AlreadyExists));
    assert_eq!(m.get(b"k".to_vec()), None);
    assert_eq!(m.entry_count(), 0);
    assert_eq!(m.size(), 0);
}

#[test]
fn removing_an_absent_key_changes_nothing() {
    let mut m = small_table(1000);
    assert_eq!(m.set(b"a".to_vec(), b"1".to_vec()), Ok(()));
    assert_eq!(m.remove(b"b".to_vec()), None);
    assert_eq!(m.entry_count(), 1);
    assert_eq!(m.size(), 2);
    assert_eq!(m.get(b"a".to_vec()), Some(b"1".to_vec()));
}

#[test]
fn entries_come_out_in_ascending_key_order() {
    let mut m = small_table(1000);
    for (key, value) in [
        ("Orange", "Orange Smoothie"),
        ("Apple", "Apple Smoothie"),
        ("Lime", "Lime Smoothie"),
        ("App", "prefix"),
        ("Limes", "longer"),
    ] {
        assert_eq!(m.set(key.as_bytes().to_vec(), value.as_bytes().to_vec()), Ok(()));
    }
    assert_eq!(
        m.entries(),
        vec![
            kv("App", "prefix"),
            kv("Apple", "Apple Smoothie"),
            kv("Lime", "Lime Smoothie"),
            kv("Limes", "longer"),
            kv("Orange", "Orange Smoothie"),
        ]
    );
    assert_eq!(m.size(), 9 + 19 + 17 + 11 + 21);
}

#[test]
fn keys_are_ordered_byte_by_byte() {
    let mut m = small_table(1000);
    for key in [vec![0xff], vec![0x00, 0xff], vec![], vec![0x7f, 0x00], vec![0x7f]] {
        assert_eq!(m.set(key, Vec::new()), Ok(()));
    }
    let keys: Vec<Vec<u8>> = m.entries().into_iter().map(|(key, _)| key).collect();
    assert_eq!(
        keys,
        vec![vec![], vec![0x00, 0xff], vec![0x7f], vec![0x7f, 0x00], vec![0xff]]
    );
}

#[test]
fn empty_values_are_kept() {
    let mut m = small_table(1000);
    assert_eq!(m.set(b"k".to_vec(), Vec::new()), Ok(()));
    assert_eq!(m.get(b"k".to_vec()), Some(Vec::new()));
    assert_eq!(m.size(), 1);
}

#[test]
fn clear_empties_the_table_and_keeps_the_filter() {
    let mut m = small_table(1000);
    assert_eq!(m.set(b"a".to_vec(), b"1".to_vec()), Ok(()));
    assert_eq!(m.set(b"b".to_vec(), b"2".to_vec()), Ok(()));
    m.clear();
    assert_eq!(m.entry_count(), 0);
    assert_eq!(m.size(), 0);
    assert_eq!(m.capacity(), 1000);
    assert_eq!(m.entries(), Vec::new());
    assert_eq!(m.get(b"a".to_vec()), None);
    // The filter still reports the keys that were set.
    assert_eq!(m.set(b"a".to_vec(), b"1".to_vec()), Err(Error::AlreadyExists));
    assert_eq!(m.set(b"c".to_vec(), b"3".to_vec()), Ok(()));
}

#[test]
fn a_table_may_grow_past_its_capacity() {
    let mut m = small_table(4);
    assert_eq!(m.set(b"key".to_vec(), b"value".to_vec()), Ok(()));
    assert_eq!(m.size(), 8);
    assert!(m.size() >= m.capacity());
}

#[test]
fn put_replaces_the_value_of_a_key_that_is_held() {
    let mut memtable = MemTable::with_capacity_and_rate(SizeUnit::Bytes, 1000, 64, 3);
    assert_eq!(memtable.set(b"k".to_vec(), b"v1".to_vec()), Ok(()));
    memtable.put(b"k".to_vec(), b"longer".to_vec());
    assert_eq!(memtable.get(b"k".to_vec()), Some(b"longer".to_vec()));
    assert_eq!(memtable.entry_count(), 1);
    assert_eq!(memtable.size(), 7);
    memtable.put(b"k".to_vec(), b"".to_vec());
    assert_eq!(memtable.get(b"k".to_vec()), Some(Vec::new()));
    assert_eq!(memtable.size(), 1);
}

#[test]
fn put_sets_a_key_that_the_filter_still_reports() {
    let mut memtable = MemTable::with_capacity_and_rate(SizeUnit::Bytes, 1000, 64, 3);
    assert_eq!(memtable.set(b"k".to_vec(), b"v1".to_vec()), Ok(()));
    assert_eq!(
        memtable.remove(b"k".to_vec()),
        Some((b"k".to_vec(), b"v1".to_vec()))
    );
    // The filter knows no removal: `set` refuses the key, `put` does not.
    assert_eq!(
        memtable.set(b"k".to_vec(), b"v2".to_vec()),
        Err(Error::AlreadyExists)
    );
    memtable.put(b"k".to_vec(), b"v2".to_vec());
    assert_eq!(memtable.get(b"k".to_vec()), Some(b"v2".to_vec()));
    assert_eq!(memtable.entry_count(), 1);
    assert_eq!(memtable.size(), 3);
}

#[test]
fn put_keeps_the_entries_in_key_order() {
    let mut memtable = MemTable::with_capacity_and_rate(SizeUnit::Bytes, 1000, 64, 3);
    memtable.put(b"b".to_vec(), b"2".to_vec());
    memtable.put(b"c".to_vec(), b"3".to_vec());
    memtable.put(b"a".to_vec(), b"1".to_vec());
    memtable.put(b"b".to_vec(), b"22".to_vec());
    assert_eq!(
        memtable.entries(),
        vec![
            (b"a".to_vec(), b"1".to_vec()),
            (b"b".to_vec(), b"22".to_vec()),
            (b"c".to_vec(), b"3".to_vec()),
        ]
    );
    assert_eq!(memtable.size(), 7);
}
