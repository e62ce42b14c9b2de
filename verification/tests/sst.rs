use lsmdb::error::Error;
use lsmdb::sst::sst_block::{Block, BLOCK_SIZE};
use lsmdb::sst::sst_writer::{append_compressed_entry, SSTableEntry, SSTableWriter};
use lsmdb::sst::sstable::{decimal_text, SSTable};

#[test]
fn a_block_stores_entries_back_to_back() {
    let mut block = Block::new();
    assert_eq!(block.set_entry(b"key", b"value"), Ok(()));
    assert_eq!(block.set_entry(b"k2", b""), Ok(()));
    assert_eq!(
        block.data(),
        &[5, 0, 0, 0, b'k', b'e', b'y', b'v', b'a', b'l', b'u', b'e', 0, 0, 0, 0, b'k', b'2']
    );
    assert_eq!(block.entry_count(), 2);
    assert_eq!(block.get_value(b"key"), Some(b"value".to_vec()));
    assert_eq!(block.get_value(b"k2"), Some(Vec::new()));
    assert_eq!(block.get_value(b"k"), None);
}

#[test]
fn a_block_is_full_when_an_entry_passes_its_capacity() {
    let block = Block::new();
    assert_eq!(BLOCK_SIZE, 4096);
    assert!(!block.is_full(4096));
    assert!(block.is_full(4097));

    let mut block = Block::with_capacity(20);
    assert_eq!(block.set_entry(b"abc", b"defgh"), Ok(()));
    assert!(!block.is_full(8));
    assert!(block.is_full(9));
    // 4 + 2 + 2 bytes fit exactly.
    assert_eq!(block.set_entry(b"ij", b"kl"), Ok(()));
    assert_eq!(block.data().len(), 20);
    assert!(!block.is_full(0));
    assert!(block.is_full(1));
}

#[test]
fn a_block_rejects_an_entry_that_does_not_fit() {
    let mut block = Block::with_capacity(20);
    assert_eq!(block.set_entry(b"abc", b"defgh"), Ok(()));
    // 4 + 2 + 3 bytes are one too many.
    assert_eq!(block.set_entry(b"ij", b"klm"), Err(Error::BlockFull));
    assert_eq!(block.data().len(), 12);
    assert_eq!(block.entry_count(), 1);
    assert_eq!(block.get_value(b"ij"), None);

    let mut small = Block::with_capacity(3);
    assert_eq!(small.set_entry(b"", b""), Err(Error::BlockFull));
}

#[test]
fn removing_an_entry_zeroes_its_bytes() {
    let mut block = Block::new();
    assert_eq!(block.set_entry(b"a", b"1"), Ok(()));
    assert_eq!(block.set_entry(b"bb", b"22"), Ok(()));
    assert_eq!(block.set_entry(b"c", b"3"), Ok(()));
    assert!(block.remove_entry(b"bb"));
    assert_eq!(
        block.data(),
        &[1, 0, 0, 0, b'a', b'1', 0, 0, 0, 0, 0, 0, 0, 0, 1, 0, 0, 0, b'c', b'3']
    );
    assert_eq!(block.entry_count(), 2);
    assert_eq!(block.get_value(b"bb"), None);
    assert_eq!(block.get_value(b"a"), Some(b"1".to_vec()));
    assert_eq!(block.get_value(b"c"), Some(b"3".to_vec()));
    // The space is not used again.
    assert_eq!(block.set_entry(b"d", b"4"), Ok(()));
    assert_eq!(block.data().len(), 26);
}

#[test]
fn removing_an_absent_entry_changes_nothing() {
    let mut block = Block::new();
    assert_eq!(block.set_entry(b"a", b"1"), Ok(()));
    assert!(!block.remove_entry(b"b"));
    assert!(block.remove_entry(b"a"));
    assert!(!block.remove_entry(b"a"));
    assert_eq!(block.entry_count(), 0);
    assert_eq!(block.data(), &[0, 0, 0, 0, 0, 0]);
}

#[test]
fn a_key_that_is_set_again_points_at_its_new_entry() {
    let mut block = Block::new();
    assert_eq!(block.set_entry(b"k", b"old"), Ok(()));
    assert_eq!(block.set_entry(b"k", b"newer"), Ok(()));
    assert_eq!(block.get_value(b"k"), Some(b"newer".to_vec()));
    assert_eq!(block.entry_count(), 1);
    assert_eq!(block.data().len(), 8 + 10);
    assert!(block.remove_entry(b"k"));
    // The old entry stays in the data; the new one is zeroed.
    assert_eq!(
        block.data(),
        &[3, 0, 0, 0, b'k', b'o', b'l', b'd', 0, 0, 0, 0, 0, 0, 0, 0, 0, 0]
    );
}

#[test]
fn a_table_opens_a_block_when_the_last_one_cannot_take_the_entry() {
    let mut table = SSTable::with_timestamp("db/sst", 5);
    assert_eq!(table.blocks().len(), 0);
    assert_eq!(table.set(b"a".to_vec(), vec![1; 2000]), Ok(()));
    assert_eq!(table.blocks().len(), 1);
    assert_eq!(table.set(b"b".to_vec(), vec![2; 2000]), Ok(()));
    assert_eq!(table.blocks().len(), 1);
    // 4010 bytes are used; 4 + 1 + 82 bytes are one too many.
    assert_eq!(table.set(b"c".to_vec(), vec![3; 82]), Ok(()));
    assert_eq!(table.blocks().len(), 2);
    // 4 + 1 + 81 bytes fit into the first block no more: entries go into
    // the last block only.
    assert_eq!(table.set(b"d".to_vec(), vec![4; 81]), Ok(()));
    assert_eq!(table.blocks().len(), 2);
    assert_eq!(table.blocks()[0].entry_count(), 2);
    assert_eq!(table.blocks()[1].entry_count(), 2);
    assert_eq!(table.get(b"a".to_vec()), Some(vec![1; 2000]));
    assert_eq!(table.get(b"c".to_vec()), Some(vec![3; 82]));
    assert_eq!(table.get(b"d".to_vec()), Some(vec![4; 81]));
    assert_eq!(table.get(b"e".to_vec()), None);
}

#[test]
fn a_block_takes_an_entry_that_fills_it_exactly() {
    let mut table = SSTable::with_timestamp("db/sst", 5);
    assert_eq!(table.set(b"a".to_vec(), vec![1; 4000]), Ok(()));
    // 4005 bytes are used: 4 + 1 + 86 bytes fill the block.
    assert_eq!(table.set(b"b".to_vec(), vec![2; 86]), Ok(()));
    assert_eq!(table.blocks().len(), 1);
    assert_eq!(table.blocks()[0].data().len(), 4096);
}

#[test]
fn a_table_rejects_an_entry_that_fits_no_block() {
    let mut table = SSTable::with_timestamp("db/sst", 5);
    assert_eq!(table.set(b"k".to_vec(), vec![0; 4091]), Ok(()));
    assert_eq!(table.set(b"l".to_vec(), vec![0; 4092]), Err(Error::BlockFull));
    // The block that was opened for the entry stays.
    assert_eq!(table.blocks().len(), 2);
    assert_eq!(table.blocks()[1].entry_count(), 0);
    assert_eq!(table.get(b"l".to_vec()), None);
    assert_eq!(table.set(vec![0; 5000], Vec::new()), Err(Error::BlockFull));
}

#[test]
fn a_lookup_returns_the_first_hit_and_a_removal_takes_the_last() {
    let mut table = SSTable::with_timestamp("db/sst", 5);
    assert_eq!(table.set(b"k".to_vec(), vec![1; 3000]), Ok(()));
    assert_eq!(table.set(b"k".to_vec(), vec![2; 3000]), Ok(()));
    assert_eq!(table.blocks().len(), 2);
    assert_eq!(table.get(b"k".to_vec()), Some(vec![1; 3000]));
    assert_eq!(table.remove(b"k".to_vec()), Ok(()));
    assert_eq!(table.blocks()[0].entry_count(), 1);
    assert_eq!(table.blocks()[1].entry_count(), 0);
    assert_eq!(table.get(b"k".to_vec()), Some(vec![1; 3000]));
    assert_eq!(table.remove(b"k".to_vec()), Ok(()));
    assert_eq!(table.get(b"k".to_vec()), None);
    assert_eq!(table.remove(b"k".to_vec()), Err(Error::NotFound));
}

#[test]
fn removing_from_an_empty_table_is_not_found() {
    let mut table = SSTable::with_timestamp("db/sst", 5);
    assert_eq!(table.remove(b"k".to_vec()), Err(Error::NotFound));
    assert_eq!(table.get(b"k".to_vec()), None);
}

#[test]
fn a_table_is_named_after_its_creation_time() {
    let table = SSTable::with_timestamp("db/sst", 1_700_000_000_123);
    assert_eq!(table.file_path(), "db/sst/sstable_1700000000123.dat");
    assert_eq!(table.created_at(), 1_700_000_000_123);
    let table = SSTable::with_timestamp("", 0);
    assert_eq!(table.file_path(), "sstable_0.dat");
    let table = SSTable::with_timestamp("x/", -42);
    assert_eq!(table.file_path(), "x/sstable_-42.dat");
}

#[test]
fn a_new_table_is_stamped_with_the_current_time() {
    let table = SSTable::new("db/sst");
    // After 2001 and before 2286, in milliseconds.
    assert!(table.created_at() > 1_000_000_000_000);
    assert!(table.created_at() < 10_000_000_000_000);
    assert_eq!(
        table.file_path(),
        format!("db/sst/sstable_{}.dat", table.created_at())
    );
    assert_eq!(table.blocks().len(), 0);
}

#[test]
fn numbers_are_written_in_decimal() {
    for number in [
        0,
        1,
        9,
        10,
        11,
        99,
        100,
        101,
        1005,
        90_000,
        -1,
        -10,
        -1005,
        i64::MAX,
        i64::MIN,
        i64::MIN + 1,
    ] {
        assert_eq!(decimal_text(number), format!("{}", number));
    }
}

#[test]
fn the_writer_counts_and_keeps_the_entries() {
    let mut writer = SSTableWriter::new("db/sst/level0.dat".to_string(), 0, 77);
    assert_eq!(writer.entry_count(), 0);
    assert_eq!(writer.file_path(), "db/sst/level0.dat");
    writer.write_entry(b"b".to_vec(), b"2".to_vec(), 1);
    writer.write_entry(b"a".to_vec(), b"1".to_vec(), 2);
    assert_eq!(writer.entry_count(), 2);
    assert_eq!(
        writer.entries(),
        &vec![
            SSTableEntry { key: b"b".to_vec(), value: b"2".to_vec(), timestamp: 1 },
            SSTableEntry { key: b"a".to_vec(), value: b"1".to_vec(), timestamp: 2 },
        ]
    );
}

#[test]
fn the_writer_sorts_by_key_and_keeps_the_order_of_equal_keys() {
    let mut writer = SSTableWriter::new("t.dat".to_string(), 0, 0);
    for (key, timestamp) in [
        ("pear", 1),
        ("apple", 2),
        ("fig", 3),
        ("apple", 4),
        ("", 5),
        ("app", 6),
        ("pear", 7),
        ("apple", 8),
    ] {
        writer.write_entry(key.as_bytes().to_vec(), Vec::new(), timestamp);
    }
    writer.sort_entries();
    let order: Vec<(String, u64)> = writer
        .entries()
        .iter()
        .map(|entry| (String::from_utf8_lossy(&entry.key).to_string(), entry.timestamp))
        .collect();
    let expected: Vec<(String, u64)> = [
        ("", 5),
        ("app", 6),
        ("apple", 2),
        ("apple", 4),
        ("apple", 8),
        ("fig", 3),
        ("pear", 1),
        ("pear", 7),
    ]
    .iter()
    .map(|(key, timestamp)| (key.to_string(), *timestamp))
    .collect();
    assert_eq!(order, expected);
    assert_eq!(writer.entry_count(), 8);
}

#[test]
fn sorting_agrees_with_the_standard_stable_sort() {
    let mut writer = SSTableWriter::new("t.dat".to_string(), 0, 0);
    let mut expected: Vec<SSTableEntry> = Vec::new();
    let mut state: u32 = 12345;
    for i in 0..200u64 {
        state = state.wrapping_mul(1_103_515_245).wrapping_add(12345);
        let length = (state >> 16) % 3;
        let mut key = Vec::new();
        for j in 0..length {
            key.push(((state >> (8 * j)) % 4) as u8);
        }
        writer.write_entry(key.clone(), vec![i as u8], i);
        expected.push(SSTableEntry { key, value: vec![i as u8], timestamp: i });
    }
    expected.sort_by(|a, b| a.key.cmp(&b.key));
    writer.sort_entries();
    assert_eq!(writer.entries(), &expected);
}

#[test]
fn the_image_holds_each_key_and_its_compressed_value() {
    let mut writer = SSTableWriter::new("t.dat".to_string(), 0, 0);
    let repetitive = vec![b'x'; 1000];
    writer.write_entry(b"b".to_vec(), repetitive.clone(), 1);
    writer.write_entry(b"a".to_vec(), b"short".to_vec(), 2);
    let image = writer.finalize();

    let mut expected = b"a".to_vec();
    expected.extend_from_slice(&lz4_flex::block::compress(b"short"));
    expected.extend_from_slice(b"b");
    expected.extend_from_slice(&lz4_flex::block::compress(&repetitive));
    assert_eq!(image, expected);
    // The values went through the compressor: the image is far shorter than
    // the values, and the long value reads back from its place in the image.
    assert!(image.len() < 100);
    let compressed = lz4_flex::block::compress(&repetitive);
    assert_eq!(
        lz4_flex::block::decompress(&image[image.len() - compressed.len()..], 1000).unwrap(),
        repetitive
    );
    // The writer holds the entries in sorted order now.
    assert_eq!(writer.entries()[0].key, b"a");
    assert_eq!(writer.entries()[1].key, b"b");
}

#[test]
fn compressing_keeps_the_order_of_the_writer() {
    let mut writer = SSTableWriter::new("t.dat".to_string(), 0, 0);
    writer.write_entry(b"b".to_vec(), b"2".to_vec(), 1);
    writer.write_entry(b"a".to_vec(), b"1".to_vec(), 2);
    let mut expected = b"b".to_vec();
    expected.extend_from_slice(&lz4_flex::block::compress(b"2"));
    expected.extend_from_slice(b"a");
    expected.extend_from_slice(&lz4_flex::block::compress(b"1"));
    assert_eq!(writer.compress_entries(), expected);
    assert_eq!(SSTableWriter::new("t.dat".to_string(), 0, 0).compress_entries(), Vec::new());
}

#[test]
fn an_entry_is_appended_as_key_and_compressed_value() {
    let mut image = vec![9];
    append_compressed_entry(&mut image, b"key", &[1, 2, 3]);
    assert_eq!(image, vec![9, b'k', b'e', b'y', 1, 2, 3]);
}

#[test]
fn the_writer_is_full_when_the_file_has_reached_the_capacity() {
    let writer = SSTableWriter::new("t.dat".to_string(), 0, 0);
    assert!(writer.is_full(Some(10), 10));
    assert!(writer.is_full(Some(11), 10));
    assert!(!writer.is_full(Some(9), 10));
    assert!(!writer.is_full(None, 0));
}
