use nanograph_storage::lsm::memtable::Entry;
use nanograph_storage::lsm::sstable::{BlockHandle, BloomFilter, DataBlock, IndexBlock, SSTable};
use nanograph_storage::lsm::table::search_tables;

fn build(entries: Vec<Entry>) -> Vec<u8> {
    let (bytes, _meta) = SSTable::build(entries, 1, 0, 4096, 0).unwrap();
    bytes
}

#[test]
fn test_sstable_create_and_read() {
    let entries = vec![
        Entry::new(b"key1".to_vec(), Some(b"value1".to_vec()), 1),
        Entry::new(b"key2".to_vec(), Some(b"value2".to_vec()), 2),
        Entry::new(b"key3".to_vec(), Some(b"value3".to_vec()), 3),
    ];

    let (buffer, metadata) = SSTable::create(entries, 1, 0, 4096).unwrap();

    assert_eq!(metadata.entry_count, 3);
    assert_eq!(metadata.min_key, b"key1");
    assert_eq!(metadata.max_key, b"key3");

    let entry = SSTable::get(&buffer, b"key2").unwrap().unwrap();
    assert_eq!(entry.key, b"key2");
    assert_eq!(entry.value_as_vec().unwrap(), b"value2");

    let entry = SSTable::get(&buffer, b"key4").unwrap();
    assert!(entry.is_none());
}

#[test]
fn test_block_crc32_verification() {
    let mut block = DataBlock::new();
    block.add_entry(Entry::new(b"test_key".to_vec(), Some(b"test_value".to_vec()), 1));

    let encoded = block.encode();
    let decoded = DataBlock::decode(&encoded).unwrap();

    assert_eq!(decoded.entries.len(), 1);
    assert_eq!(decoded.entries[0].key, b"test_key");
    assert_eq!(decoded.entries[0].value_as_vec().unwrap(), b"test_value");
}

#[test]
fn test_corrupted_data_block_detection() {
    let mut block = DataBlock::new();
    block.add_entry(Entry::new(b"key".to_vec(), Some(b"value".to_vec()), 1));

    let mut encoded = block.encode();
    if encoded.len() > 10 {
        encoded[5] ^= 0xFF;
    }

    let result = DataBlock::decode(&encoded);
    assert!(result.is_err());
    assert!(result.unwrap_err().to_string().contains("CRC32 mismatch"));
}

#[test]
fn test_index_block_crc32_verification() {
    let mut index = IndexBlock::new();
    index.add_entry(b"key1".to_vec(), BlockHandle { offset: 0, size: 100 });
    index.add_entry(b"key2".to_vec(), BlockHandle { offset: 100, size: 150 });

    let encoded = index.encode().unwrap();
    let decoded = IndexBlock::decode(&encoded).unwrap();

    assert_eq!(decoded.entries.len(), 2);
    assert_eq!(decoded.entries[0].0, b"key1");
    assert_eq!(decoded.entries[1].0, b"key2");
}

#[test]
fn corrupted_index_key_is_detected() {
    let mut index = IndexBlock::new();
    index.add_entry(b"longer_key".to_vec(), BlockHandle { offset: 0, size: 100 });

    let mut encoded = index.encode().unwrap();
    encoded[3] ^= 0xFF;

    let result = IndexBlock::decode(&encoded);
    assert!(result.unwrap_err().to_string().contains("CRC32 mismatch"));
}

#[test]
fn test_bloom_filter_crc32_verification() {
    let mut bloom = BloomFilter::new(10, 10);
    bloom.add(b"test_key");

    let encoded = bloom.encode();
    let decoded = BloomFilter::decode(&encoded).unwrap();

    assert!(decoded.may_contain(b"test_key"));
}

#[test]
fn test_corrupted_bloom_filter_detection() {
    let mut bloom = BloomFilter::new(10, 10);
    bloom.add(b"key");

    let mut encoded = bloom.encode();
    if encoded.len() > 10 {
        encoded[2] ^= 0xFF;
    }

    let result = BloomFilter::decode(&encoded);
    assert!(result.is_err());
    assert!(result.unwrap_err().to_string().contains("CRC32 mismatch"));
}

#[test]
fn test_sstable_iterator_basic() {
    let entries = vec![
        Entry::new(b"key1".to_vec(), Some(b"value1".to_vec()), 1),
        Entry::new(b"key2".to_vec(), Some(b"value2".to_vec()), 2),
        Entry::new(b"key3".to_vec(), Some(b"value3".to_vec()), 3),
        Entry::new(b"key4".to_vec(), Some(b"value4".to_vec()), 4),
        Entry::new(b"key5".to_vec(), Some(b"value5".to_vec()), 5),
    ];

    let buffer = build(entries.clone());
    let read_entries = SSTable::iter(&buffer).unwrap().collect_entries().unwrap();

    assert_eq!(read_entries.len(), 5);
    for (i, entry) in read_entries.iter().enumerate() {
        assert_eq!(entry.key, entries[i].key);
        assert_eq!(entry.value, entries[i].value);
        assert_eq!(entry.sequence, entries[i].sequence);
    }
}

#[test]
fn test_sstable_iterator_large_dataset() {
    let entries: Vec<_> = (0..1000)
        .map(|i| {
            Entry::new(format!("key{:04}", i).into_bytes(), Some(format!("value{:04}", i).into_bytes()), i as u64)
        })
        .collect();

    let buffer = build(entries.clone());
    let read_entries = SSTable::iter(&buffer).unwrap().collect_entries().unwrap();

    assert_eq!(read_entries.len(), 1000);
    assert_eq!(read_entries[0].key, b"key0000");
    assert_eq!(read_entries[500].key, b"key0500");
    assert_eq!(read_entries[999].key, b"key0999");
}

#[test]
fn test_sstable_iterator_with_tombstones() {
    let entries = vec![
        Entry::new(b"key1".to_vec(), Some(b"value1".to_vec()), 1),
        Entry::new(b"key2".to_vec(), None, 2),
        Entry::new(b"key3".to_vec(), Some(b"value3".to_vec()), 3),
        Entry::new(b"key4".to_vec(), None, 4),
    ];

    let buffer = build(entries);
    let read_entries = SSTable::iter(&buffer).unwrap().collect_entries().unwrap();

    assert_eq!(read_entries.len(), 4);
    assert!(read_entries[0].value.is_some());
    assert!(read_entries[1].value.is_none());
    assert!(read_entries[2].value.is_some());
    assert!(read_entries[3].value.is_none());
}

#[test]
fn table_lookups_across_many_blocks() {
    let entries: Vec<_> = (0..1000)
        .map(|i| Entry::new(format!("key{:04}", i).into_bytes(), Some(format!("value{:04}", i).into_bytes()), i as u64))
        .collect();
    let (buffer, meta) = SSTable::build(entries, 42, 1, 512, 7).unwrap();
    assert_eq!(meta.file_number, 42);
    assert_eq!(meta.level, 1);
    assert_eq!(meta.created_at, 7);
    assert_eq!(meta.min_sequence, 0);
    assert_eq!(meta.max_sequence, 999);
    assert_eq!(meta.file_size, buffer.len() as u64);
    for i in [0usize, 1, 17, 250, 511, 998, 999] {
        let key = format!("key{:04}", i).into_bytes();
        let e = SSTable::get(&buffer, &key).unwrap().unwrap();
        assert_eq!(e.value_as_vec().unwrap(), format!("value{:04}", i).into_bytes());
        assert_eq!(e.sequence, i as u64);
    }
    assert!(SSTable::get(&buffer, b"key1000").unwrap().is_none());
    assert!(SSTable::get(&buffer, b"a").unwrap().is_none());
}

#[test]
fn table_build_rejects_empty_input() {
    let err = SSTable::build(Vec::new(), 1, 0, 4096, 0).unwrap_err();
    assert_eq!(err.to_string(), "Cannot create SSTable from empty entries");
}

#[test]
fn table_get_reports_truncated_file() {
    let err = SSTable::get(&[0u8; 10], b"k").unwrap_err();
    assert_eq!(err.to_string(), "SSTable file too short");
    let entries: Vec<_> = (0..100)
        .map(|i| Entry::new(format!("key{:03}", i).into_bytes(), Some(b"v".to_vec()), i as u64))
        .collect();
    let bytes = build(entries);
    let err = SSTable::get(&bytes[bytes.len() - 48..], b"key001").unwrap_err();
    assert_eq!(err.to_string(), "Block lies outside the SSTable file");
}

#[test]
fn table_get_reports_bad_magic() {
    let mut bytes = build(vec![Entry::new(b"k".to_vec(), Some(b"v".to_vec()), 1)]);
    let n = bytes.len();
    bytes[n - 16] ^= 0xff;
    let err = SSTable::iter(&bytes).err().unwrap();
    assert_eq!(err.to_string(), "Invalid magic number");
}

#[test]
fn search_tables_takes_the_first_hit_and_skips_bad_files() {
    let newer = build(vec![Entry::new(b"a".to_vec(), None, 9)]);
    let older = build(vec![
        Entry::new(b"a".to_vec(), Some(b"1".to_vec()), 1),
        Entry::new(b"b".to_vec(), Some(b"2".to_vec()), 2),
    ]);
    let broken = vec![0u8; 5];
    let files = vec![broken, newer, older];
    let a = search_tables(&files, b"a").unwrap();
    assert!(a.is_deletion());
    assert_eq!(a.sequence, 9);
    let b = search_tables(&files, b"b").unwrap();
    assert_eq!(b.value_as_vec(), Some(b"2".to_vec()));
    assert!(search_tables(&files, b"c").is_none());
}

#[test]
fn table_iterator_steps_through_blocks() {
    let entries: Vec<_> = (0..100)
        .map(|i| Entry::new(format!("key{:03}", i).into_bytes(), Some(b"value".to_vec()), i as u64))
        .collect();
    let (bytes, _) = SSTable::build(entries, 1, 0, 256, 0).unwrap();
    assert!(SSTable::open_index(&bytes).unwrap().entries.len() > 2);
    let mut it = SSTable::iter(&bytes).unwrap();
    for i in 0..100u64 {
        let e = it.next().unwrap().unwrap();
        assert_eq!(e.key, format!("key{:03}", i).into_bytes());
        assert_eq!(e.sequence, i);
    }
    assert!(it.next().is_none());
    assert!(it.next().is_none());
}

#[test]
fn table_iterator_stops_at_a_damaged_block() {
    let entries: Vec<_> = (0..100)
        .map(|i| Entry::new(format!("key{:03}", i).into_bytes(), Some(b"value".to_vec()), i as u64))
        .collect();
    let (mut bytes, _) = SSTable::build(entries, 1, 0, 256, 0).unwrap();
    let index = SSTable::open_index(&bytes).unwrap();
    let first = index.entries[0].1;
    let second = index.entries[1].1;
    bytes[(second.offset + 3) as usize] ^= 0x55;

    let first_block = DataBlock::decode(&bytes[first.offset as usize..(first.offset + first.size) as usize]).unwrap();
    let mut it = SSTable::iter(&bytes).unwrap();
    for _ in 0..first_block.entries.len() {
        assert!(it.next().unwrap().is_ok());
    }
    let err = it.next().unwrap().err().unwrap();
    assert!(err.to_string().contains("CRC32 mismatch"));
    let again = it.next().unwrap().err().unwrap();
    assert_eq!(again.to_string(), err.to_string());

    let whole = SSTable::iter(&bytes).unwrap().collect_entries().err().unwrap();
    assert_eq!(whole.to_string(), err.to_string());
}
