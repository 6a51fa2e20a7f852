use nanograph_storage::integrity::crc32c_checksum;
use nanograph_storage::kvt::error::KeyValueError;
use nanograph_storage::lsm::compaction::CompactionTask;
use nanograph_storage::lsm::compactor::{
    deduplicate_and_filter, merge_runs, split_into_batches, sstable_path, CompactionExecutor,
};
use nanograph_storage::lsm::memtable::Entry;
use nanograph_storage::lsm::sstable::DataBlock;

fn put(key: &str, value: &str, seq: u64) -> Entry {
    Entry::new(key.as_bytes().to_vec(), Some(value.as_bytes().to_vec()), seq)
}

fn del(key: &str, seq: u64) -> Entry {
    Entry::new(key.as_bytes().to_vec(), None, seq)
}

fn keys_and_seqs(entries: &[Entry]) -> Vec<(Vec<u8>, u64)> {
    entries.iter().map(|e| (e.key.clone(), e.sequence)).collect()
}

#[test]
fn merge_orders_by_key_then_newest_first() {
    let runs = vec![
        vec![put("a", "1", 1), put("c", "3", 3)],
        vec![put("a", "9", 7), put("b", "2", 2), del("c", 8)],
        vec![],
    ];
    let merged = merge_runs(&runs);
    assert_eq!(
        keys_and_seqs(&merged),
        vec![
            (b"a".to_vec(), 7),
            (b"a".to_vec(), 1),
            (b"b".to_vec(), 2),
            (b"c".to_vec(), 8),
            (b"c".to_vec(), 3),
        ]
    );
}

#[test]
fn merge_of_nothing_is_empty() {
    let runs: Vec<Vec<Entry>> = Vec::new();
    assert!(merge_runs(&runs).is_empty());
}

#[test]
fn dedup_keeps_newest_and_drops_deletions() {
    let merged = vec![put("a", "new", 7), put("a", "old", 1), put("b", "2", 2), del("c", 8), put("c", "3", 3)];
    let kept = deduplicate_and_filter(merged);
    assert_eq!(kept.len(), 2);
    assert_eq!(kept[0].key, b"a".to_vec());
    assert_eq!(kept[0].value_as_vec(), Some(b"new".to_vec()));
    assert_eq!(kept[1].key, b"b".to_vec());
}

#[test]
fn split_cuts_at_the_limit() {
    // each entry: 1 key byte + 1 value byte + 16
    let entries = vec![put("a", "1", 1), put("b", "2", 2), put("c", "3", 3)];
    let batches = split_into_batches(entries, 36);
    assert_eq!(batches.len(), 2);
    assert_eq!(batches[0].len(), 2);
    assert_eq!(batches[1].len(), 1);
    assert_eq!(batches[1][0].key, b"c".to_vec());
}

#[test]
fn split_keeps_an_oversized_entry_alone() {
    let entries = vec![put("a", "0123456789", 1), put("b", "2", 2)];
    let batches = split_into_batches(entries, 10);
    assert_eq!(batches.len(), 2);
    assert_eq!(batches[0][0].key, b"a".to_vec());
    assert_eq!(batches[1][0].key, b"b".to_vec());
}

#[test]
fn table_paths_are_zero_padded() {
    assert_eq!(sstable_path("/data/lsm", 42), "/data/lsm/000042.sst");
    assert_eq!(sstable_path("db", 1234567), "db/1234567.sst");
    let exec = CompactionExecutor::new("base".to_string(), 4);
    assert_eq!(exec.table_path(7), "base/000007.sst");
}

#[test]
fn execute_compacts_into_numbered_tables() {
    let exec = CompactionExecutor::new("db".to_string(), 4);
    let task = CompactionTask {
        source_level: 0,
        target_level: 1,
        source_sstables: Vec::new(),
        target_sstables: Vec::new(),
    };
    let runs = vec![
        vec![put("k1", "new", 10), del("k2", 11)],
        vec![put("k1", "old", 1), put("k2", "v2", 2), put("k3", "v3", 3)],
    ];
    let mut next = 5u64;
    let out = exec.execute(&task, &runs, &mut next);
    assert_eq!(out.len(), 1);
    assert_eq!(next, 6);
    assert_eq!(out[0].file_number, 5);
    assert_eq!(out[0].level, 1);
    let keys: Vec<Vec<u8>> = out[0].entries.iter().map(|e| e.key.clone()).collect();
    assert_eq!(keys, vec![b"k1".to_vec(), b"k3".to_vec()]);
    assert_eq!(out[0].entries[0].value_as_vec(), Some(b"new".to_vec()));
}

#[test]
fn execute_of_only_deletions_writes_nothing() {
    let exec = CompactionExecutor::new("db".to_string(), 4);
    let task = CompactionTask {
        source_level: 2,
        target_level: 3,
        source_sstables: Vec::new(),
        target_sstables: Vec::new(),
    };
    let runs = vec![vec![del("a", 5)], vec![put("a", "x", 1)]];
    let mut next = 9u64;
    let out = exec.execute(&task, &runs, &mut next);
    assert!(out.is_empty());
    assert_eq!(next, 9);
}

fn sample_block() -> DataBlock {
    let mut block = DataBlock::new();
    block.add_entry(put("apple", "red", 1));
    block.add_entry(put("apricot", "orange", 2));
    block.add_entry(del("banana", 3));
    block
}

#[test]
fn block_encode_decode_roundtrip() {
    let block = sample_block();
    let bytes = block.encode();
    let decoded = DataBlock::decode(&bytes).unwrap();
    assert_eq!(decoded.restart_points, vec![0]);
    assert_eq!(decoded.entries.len(), 3);
    assert_eq!(decoded.entries[1].key, b"apricot".to_vec());
    assert_eq!(decoded.entries[1].value_as_vec(), Some(b"orange".to_vec()));
    assert_eq!(decoded.entries[1].sequence, 2);
    assert_eq!(decoded.entries[2].key, b"banana".to_vec());
    assert!(decoded.entries[2].is_deletion());
}

#[test]
fn block_with_bad_checksum_is_rejected() {
    let mut bytes = sample_block().encode();
    bytes[3] ^= 0xff;
    let err = DataBlock::decode(&bytes).unwrap_err();
    assert!(err.to_string().starts_with("Block CRC32 mismatch: expected 0x"));
}

#[test]
fn block_too_short_is_rejected() {
    let err = DataBlock::decode(&[0, 1, 2]).unwrap_err();
    assert_eq!(err.to_string(), "Block data too short");
}

#[test]
fn block_with_unknown_compression_is_rejected() {
    let mut bytes = vec![3u8, 0, 0, 0, 0];
    let crc = crc32c_checksum(&bytes);
    bytes.extend_from_slice(&crc.to_le_bytes());
    let err = DataBlock::decode(&bytes).unwrap_err();
    assert_eq!(err.to_string(), "Unsupported compression algorithm: 3");
}

#[test]
fn compaction_outputs_write_and_load_back() {
    let exec = CompactionExecutor::new("db".to_string(), 4);
    let entries = vec![put("a", "1", 1), del("b", 2), put("c", "3", 3)];
    let (bytes, meta) = exec.write_sstable(entries, 12, 2).unwrap();
    assert_eq!(meta.file_number, 12);
    assert_eq!(meta.level, 2);
    assert_eq!(meta.entry_count, 3);
    assert_eq!(meta.file_size, bytes.len() as u64);
    let loaded = exec.load_sstable_entries(12, &bytes).unwrap();
    assert_eq!(keys_and_seqs(&loaded), vec![(b"a".to_vec(), 1), (b"b".to_vec(), 2), (b"c".to_vec(), 3)]);
    assert!(loaded[1].is_deletion());
}

#[test]
fn compaction_write_of_nothing_fails() {
    let exec = CompactionExecutor::new("db".to_string(), 4);
    match exec.write_sstable(Vec::new(), 1, 0) {
        Err(KeyValueError::StorageCorruption(m)) => assert_eq!(m, "Cannot create SSTable from empty entries"),
        _ => panic!("expected a storage corruption error"),
    }
}

#[test]
fn compaction_load_reports_where_it_failed() {
    let exec = CompactionExecutor::new("db".to_string(), 4);
    match exec.load_sstable_entries(7, &[1, 2, 3]) {
        Err(KeyValueError::StorageCorruption(m)) => {
            assert_eq!(m, "Failed to create SSTable iterator for 7: SSTable file too short")
        }
        _ => panic!("expected a storage corruption error"),
    }
    let (mut bytes, _) = exec.write_sstable(vec![put("key", "value", 1)], 7, 0).unwrap();
    bytes[2] ^= 0xff;
    match exec.load_sstable_entries(7, &bytes) {
        Err(KeyValueError::StorageCorruption(m)) => {
            assert!(m.starts_with("Failed to read entry from SSTable 7: Block CRC32 mismatch"))
        }
        _ => panic!("expected a storage corruption error"),
    }
}
