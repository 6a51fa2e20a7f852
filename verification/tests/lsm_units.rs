use nanograph_storage::keyorder::KeyOrder;
use nanograph_storage::kvt::error::KeyValueError;
use nanograph_storage::lsm::bloblog::{BlobRecord, BlobRef};
use nanograph_storage::lsm::cache::{BlockCache, BlockKey};
use nanograph_storage::lsm::compaction::{CompactionStrategy, MergeEntry};
use nanograph_storage::lsm::error::{ErrorSeverity, LSMError};
use nanograph_storage::lsm::iterator::{IteratorCursor, LSMIterator};
use nanograph_storage::lsm::memtable::{Entry, MemTable};
use nanograph_storage::lsm::metrics::{epoch_seconds, BloomFilterResult, LSMMetrics};
use nanograph_storage::lsm::sstable::{BloomFilter, DataBlock};
use nanograph_storage::lsm::varint::{read_varint, write_varint};
use nanograph_storage::lsm::wal_record::{
    decode_checkpoint, decode_commit, decode_delete, decode_delete_committed, decode_flush_complete, decode_put,
    decode_put_committed, encode_checkpoint, encode_commit, encode_delete, encode_delete_committed,
    encode_flush_complete, encode_put, encode_put_committed, WalRecordKind,
};
use std::sync::Arc;
use std::time::Duration;

fn create_test_block(size: usize) -> Arc<DataBlock> {
    let mut block = DataBlock::new();
    for i in 0..size {
        block.add_entry(Entry::new(
            format!("key{}", i).into_bytes(),
            Some(format!("value{}", i).into_bytes()),
            i as u64,
        ));
    }
    Arc::new(block)
}

fn block_size_of(block: &Arc<DataBlock>) -> usize {
    let mut temp_cache = BlockCache::new(10000);
    temp_cache.insert(BlockKey::new(0, 0), Arc::clone(block));
    temp_cache.size()
}

#[test]
fn test_blob_record_encode_decode() {
    let record = BlobRecord::new(b"test_key".to_vec(), b"test_value".to_vec());
    let encoded = record.encode();

    let decoded = BlobRecord::decode(&encoded).unwrap();
    assert_eq!(decoded.key, record.key);
    assert_eq!(decoded.value, record.value);
}

#[test]
fn test_blob_record_crc_validation() {
    let record = BlobRecord::new(b"key".to_vec(), b"value".to_vec());
    let mut encoded = record.encode();

    encoded[20] ^= 0xFF;

    let result = BlobRecord::decode(&encoded);
    assert!(result.is_err());
    assert!(result.unwrap_err().to_string().contains("CRC32 mismatch"));
}

#[test]
fn test_blob_ref_serialization() {
    let blob_ref = BlobRef::new(42, 1024, 256);
    assert_eq!(blob_ref.file_id, 42);
    assert_eq!(blob_ref.offset, 1024);
    assert_eq!(blob_ref.length, 256);
}

#[test]
fn test_cache_basic_operations() {
    let mut cache = BlockCache::new(1024 * 1024);
    let key = BlockKey::new(1, 0);
    let block = create_test_block(10);

    cache.insert(key, Arc::clone(&block));
    assert!(cache.get(&key).is_some());
    assert_eq!(cache.entry_count(), 1);

    cache.remove(&key);
    assert!(cache.get(&key).is_none());
    assert_eq!(cache.entry_count(), 0);
}

#[test]
fn test_cache_eviction() {
    let mut cache = BlockCache::new(1000);

    for i in 0..10 {
        let key = BlockKey::new(i, 0);
        let block = create_test_block(5);
        cache.insert(key, block);
    }

    assert!(cache.entry_count() < 10);
    assert!(cache.size() <= cache.capacity());
}

#[test]
fn test_cache_lru() {
    let block = create_test_block(5);
    let block_size = {
        let temp_cache = BlockCache::new(10000);
        temp_cache.estimate_block_size(&block)
    };
    let mut cache = BlockCache::new(block_size * 3);

    let key1 = BlockKey::new(1, 0);
    let key2 = BlockKey::new(2, 0);
    let key3 = BlockKey::new(3, 0);

    cache.insert(key1, Arc::clone(&block));
    cache.insert(key2, Arc::clone(&block));
    cache.insert(key3, Arc::clone(&block));

    cache.get(&key1);

    let key4 = BlockKey::new(4, 0);
    cache.insert(key4, Arc::clone(&block));

    assert!(cache.get(&key1).is_some());
    assert!(cache.get(&key2).is_none());
}

#[test]
fn test_cache_clear() {
    let mut cache = BlockCache::new(1024 * 1024);

    for i in 0..5 {
        let key = BlockKey::new(i, 0);
        let block = create_test_block(10);
        cache.insert(key, block);
    }

    assert_eq!(cache.entry_count(), 5);

    cache.clear();

    assert_eq!(cache.entry_count(), 0);
    assert_eq!(cache.size(), 0);
}

#[test]
fn test_lru_eviction_tracking() {
    let mut cache = BlockCache::new(1024 * 1024);

    assert_eq!(cache.evictions(), 0);

    let key = BlockKey::new(1, 0);
    let block = create_test_block(10);

    cache.insert(key, block);

    assert_eq!(cache.evictions(), 0);
}

#[test]
fn test_lru_eviction_on_capacity() {
    let block = create_test_block(5);
    let block_size = block_size_of(&block);

    let mut cache = BlockCache::new(block_size * 3);

    for i in 0..3 {
        cache.insert(BlockKey::new(i, 0), Arc::clone(&block));
    }

    assert_eq!(cache.entry_count(), 3);
    assert_eq!(cache.evictions(), 0);

    cache.insert(BlockKey::new(3, 0), Arc::clone(&block));

    assert_eq!(cache.entry_count(), 3);
    assert_eq!(cache.evictions(), 1);
}

#[test]
fn test_lru_frequency_based_eviction() {
    let block = create_test_block(5);
    let block_size = block_size_of(&block);

    let mut cache = BlockCache::new(block_size * 3);

    let key1 = BlockKey::new(1, 0);
    let key2 = BlockKey::new(2, 0);
    let key3 = BlockKey::new(3, 0);

    cache.insert(key1, Arc::clone(&block));
    cache.insert(key2, Arc::clone(&block));
    cache.insert(key3, Arc::clone(&block));

    for _ in 0..5 {
        cache.get(&key1);
    }

    cache.get(&key2);

    let key4 = BlockKey::new(4, 0);
    cache.insert(key4, Arc::clone(&block));

    assert!(cache.get(&key1).is_some());
    assert!(cache.get(&key2).is_some());

    assert!(cache.get(&key3).is_none());

    assert!(cache.get(&key4).is_some());
}

#[test]
fn test_lru_recency_based_eviction() {
    let block = create_test_block(5);
    let block_size = block_size_of(&block);

    let mut cache = BlockCache::new(block_size * 3);

    let key1 = BlockKey::new(1, 0);
    let key2 = BlockKey::new(2, 0);
    let key3 = BlockKey::new(3, 0);

    cache.insert(key1, Arc::clone(&block));
    cache.insert(key2, Arc::clone(&block));
    cache.insert(key3, Arc::clone(&block));

    cache.get(&key1);
    cache.get(&key2);
    cache.get(&key3);

    cache.get(&key3);

    let key4 = BlockKey::new(4, 0);
    cache.insert(key4, Arc::clone(&block));

    assert!(cache.get(&key1).is_none());

    assert!(cache.get(&key2).is_some());
    assert!(cache.get(&key3).is_some());
    assert!(cache.get(&key4).is_some());
}

#[test]
fn test_cache_reset_stats() {
    let mut cache = BlockCache::new(1024 * 1024);
    let key = BlockKey::new(1, 0);
    let block = create_test_block(10);

    cache.insert(key, Arc::clone(&block));
    cache.get(&key);
    cache.get(&BlockKey::new(2, 0));

    assert!(cache.hits() > 0);
    assert!(cache.misses() > 0);

    cache.reset_stats();

    assert_eq!(cache.hits(), 0);
    assert_eq!(cache.misses(), 0);
    assert_eq!(cache.evictions(), 0);
}

#[test]
fn test_multiple_evictions() {
    let block = create_test_block(5);
    let block_size = block_size_of(&block);

    let mut cache = BlockCache::new(block_size);

    for i in 0..10 {
        cache.insert(BlockKey::new(i, 0), Arc::clone(&block));
    }

    assert_eq!(cache.evictions(), 9);
    assert_eq!(cache.entry_count(), 1);
}

#[test]
fn test_compaction_strategy() {
    let strategy = CompactionStrategy::default();

    assert_eq!(strategy.target_size(0, 64 * 1024 * 1024), 0);
    assert_eq!(strategy.target_size(1, 64 * 1024 * 1024), 640 * 1024 * 1024);
    assert_eq!(strategy.target_size(2, 64 * 1024 * 1024), 6400 * 1024 * 1024);
}

#[test]
fn test_merge_entry_ordering() {
    let entry1 = MergeEntry {
        entry: Entry::new(b"key1".to_vec(), Some(b"value1".to_vec()), 1),
        source_level: 0,
        source_file: 1,
    };

    let entry2 = MergeEntry {
        entry: Entry::new(b"key2".to_vec(), Some(b"value2".to_vec()), 2),
        source_level: 0,
        source_file: 1,
    };

    // entry1 comes out of the min-heap first: it orders greater.
    assert!(entry1.heap_order(&entry2) == KeyOrder::Greater);
}

#[test]
fn test_error_context() {
    let err = LSMError::MemTableFull { current_size: 64 * 1024 * 1024, max_size: 64 * 1024 * 1024 };
    assert!(err.context().contains("MemTable is full"));
    assert!(err.is_recoverable());
    assert_eq!(err.severity(), ErrorSeverity::Warning);
}

#[test]
fn test_error_severity() {
    let warning = LSMError::MemTableFull { current_size: 100, max_size: 100 };
    assert_eq!(warning.severity(), ErrorSeverity::Warning);

    let critical = LSMError::SSTableCorrupted { file_number: 1, reason: "test".to_string() };
    assert_eq!(critical.severity(), ErrorSeverity::Critical);
    assert!(!critical.is_recoverable());
}

#[test]
fn test_error_conversion() {
    let lsm_err = LSMError::MemTableFull { current_size: 100, max_size: 100 };
    let kv_err: KeyValueError = lsm_err.into_key_value_error();
    assert!(matches!(kv_err, KeyValueError::OutOfMemory));
}

fn three_entries() -> Vec<Entry> {
    vec![
        Entry::new(b"key1".to_vec(), Some(b"value1".to_vec()), 1),
        Entry::new(b"key2".to_vec(), Some(b"value2".to_vec()), 2),
        Entry::new(b"key3".to_vec(), Some(b"value3".to_vec()), 3),
    ]
}

#[test]
fn test_iterator_basic() {
    let iter = LSMIterator::new(three_entries(), false);

    assert_eq!(iter.entries().len(), 3);
    assert_eq!(iter.entries()[0].0, b"key1");
    assert_eq!(iter.entries()[1].0, b"key2");
    assert_eq!(iter.entries()[2].0, b"key3");
}

#[test]
fn test_iterator_reverse() {
    let iter = LSMIterator::new(three_entries(), true);

    assert_eq!(iter.entries().len(), 3);
    assert_eq!(iter.entries()[0].0, b"key3");
    assert_eq!(iter.entries()[1].0, b"key2");
    assert_eq!(iter.entries()[2].0, b"key1");
}

#[test]
fn test_iterator_merge() {
    let source1 = vec![
        Entry::new(b"key1".to_vec(), Some(b"value1a".to_vec()), 1),
        Entry::new(b"key3".to_vec(), Some(b"value3a".to_vec()), 1),
    ];

    let source2 = vec![
        Entry::new(b"key1".to_vec(), Some(b"value1b".to_vec()), 2),
        Entry::new(b"key2".to_vec(), Some(b"value2b".to_vec()), 2),
    ];

    let iter = LSMIterator::merge(vec![source1, source2], false);

    assert_eq!(iter.entries().len(), 3);
    assert_eq!(iter.entries()[0].0, b"key1");
    assert_eq!(iter.entries()[0].1, b"value1a");
    assert_eq!(iter.entries()[1].0, b"key2");
    assert_eq!(iter.entries()[2].0, b"key3");
}

#[test]
fn test_iterator_tombstones() {
    let entries = vec![
        Entry::new(b"key1".to_vec(), Some(b"value1".to_vec()), 1),
        Entry::new(b"key2".to_vec(), None, 2),
        Entry::new(b"key3".to_vec(), Some(b"value3".to_vec()), 3),
    ];

    let iter = LSMIterator::new(entries, false);

    assert_eq!(iter.entries().len(), 2);
    assert_eq!(iter.entries()[0].0, b"key1");
    assert_eq!(iter.entries()[1].0, b"key3");
}

#[test]
fn test_iterator_seek() {
    let mut iter = LSMIterator::new(three_entries(), false);

    iter.seek(b"key2").unwrap();
    assert_eq!(iter.get_cursor().position, 1);
    assert!(iter.valid());
}

#[test]
fn test_iterator_position() {
    let entries = vec![Entry::new(b"key1".to_vec(), Some(b"value1".to_vec()), 1)];

    let iter = LSMIterator::new(entries, false);
    assert_eq!(iter.position(), None);

    let iter = LSMIterator::from_cursor(iter.entries().clone(), IteratorCursor { position: 1 }, false);
    assert_eq!(iter.position(), Some(b"key1".to_vec()));
}

#[test]
fn test_memtable_basic_operations() {
    let mut memtable = MemTable::new();

    let seq1 = memtable.put(b"key1".to_vec(), b"value1".to_vec());
    let entry = memtable.get(b"key1").unwrap();
    assert_eq!(entry.value.as_ref().unwrap().as_inline().unwrap(), b"value1");
    assert_eq!(entry.sequence, seq1);

    let seq2 = memtable.put(b"key1".to_vec(), b"value2".to_vec());
    let entry = memtable.get(b"key1").unwrap();
    assert_eq!(entry.value.as_ref().unwrap().as_inline().unwrap(), b"value2");
    assert_eq!(entry.sequence, seq2);
    assert!(seq2 > seq1);

    let seq3 = memtable.delete(b"key1".to_vec());
    let entry = memtable.get(b"key1").unwrap();
    assert!(entry.value.is_none());
    assert_eq!(entry.sequence, seq3);
    assert!(seq3 > seq2);
}

#[test]
fn test_memtable_iteration() {
    let mut memtable = MemTable::new();

    memtable.put(b"key3".to_vec(), b"value3".to_vec());
    memtable.put(b"key1".to_vec(), b"value1".to_vec());
    memtable.put(b"key2".to_vec(), b"value2".to_vec());

    let entries: Vec<Entry> = memtable.iter().collect_remaining();
    assert_eq!(entries.len(), 3);
    assert_eq!(entries[0].key, b"key1");
    assert_eq!(entries[1].key, b"key2");
    assert_eq!(entries[2].key, b"key3");
}

#[test]
fn test_memtable_range() {
    let mut memtable = MemTable::new();

    memtable.put(b"key1".to_vec(), b"value1".to_vec());
    memtable.put(b"key2".to_vec(), b"value2".to_vec());
    memtable.put(b"key3".to_vec(), b"value3".to_vec());
    memtable.put(b"key4".to_vec(), b"value4".to_vec());

    let entries: Vec<Entry> = memtable.range(b"key2", b"key4").collect_remaining();
    assert_eq!(entries.len(), 2);
    assert_eq!(entries[0].key, b"key2");
    assert_eq!(entries[1].key, b"key3");
}

#[test]
fn test_memtable_size() {
    let mut memtable = MemTable::new();

    assert_eq!(memtable.size(), 0);
    assert_eq!(memtable.entry_count(), 0);

    memtable.put(b"key1".to_vec(), b"value1".to_vec());
    assert!(memtable.size() > 0);
    assert_eq!(memtable.entry_count(), 1);

    memtable.put(b"key2".to_vec(), b"value2".to_vec());
    assert_eq!(memtable.entry_count(), 2);
}

#[test]
fn test_memtable_sequence() {
    let mut memtable = MemTable::new();

    let seq1 = memtable.put(b"key1".to_vec(), b"value1".to_vec());
    let seq2 = memtable.put(b"key2".to_vec(), b"value2".to_vec());
    let seq3 = memtable.delete(b"key1".to_vec());

    assert_eq!(seq1, 0);
    assert_eq!(seq2, 1);
    assert_eq!(seq3, 2);
    assert_eq!(memtable.current_sequence(), 3);
}

#[test]
fn test_write_metrics() {
    let mut metrics = LSMMetrics::new();

    metrics.record_write(100, Duration::from_micros(10));
    metrics.record_write(200, Duration::from_micros(20));

    assert_eq!(metrics.total_writes(), 2);
    assert_eq!(metrics.avg_write_latency(), Duration::from_micros(15));
}

#[test]
fn test_varint_encoding() {
    let mut buf = Vec::new();
    write_varint(&mut buf, 0);
    assert_eq!(buf, vec![0]);

    buf.clear();
    write_varint(&mut buf, 127);
    assert_eq!(buf, vec![127]);

    buf.clear();
    write_varint(&mut buf, 128);
    assert_eq!(buf, vec![0x80, 0x01]);

    buf.clear();
    write_varint(&mut buf, 16384);
    assert_eq!(buf, vec![0x80, 0x80, 0x01]);
}

#[test]
fn test_varint_decoding() {
    assert_eq!(read_varint(&[0]).unwrap(), (0, 1));
    assert_eq!(read_varint(&[127]).unwrap(), (127, 1));
    assert_eq!(read_varint(&[0x80, 0x01]).unwrap(), (128, 2));
    assert_eq!(read_varint(&[0x80, 0x80, 0x01]).unwrap(), (16384, 3));
}

#[test]
fn test_bloom_filter() {
    let mut bloom = BloomFilter::new(100, 10);

    bloom.add(b"key1");
    bloom.add(b"key2");
    bloom.add(b"key3");

    assert!(bloom.may_contain(b"key1"));
    assert!(bloom.may_contain(b"key2"));
    assert!(bloom.may_contain(b"key3"));

    let false_positives = (0..100).filter(|i| bloom.may_contain(format!("nonexistent{}", i).as_bytes())).count();

    assert!(false_positives < 10);
}

#[test]
fn test_encode_decode_put() {
    let key = b"test_key";
    let value = b"test_value";

    let payload = encode_put(key, value);
    let (decoded_key, decoded_value) = decode_put(&payload).unwrap();

    assert_eq!(decoded_key, key);
    assert_eq!(decoded_value, value);
}

#[test]
fn test_encode_decode_delete() {
    let key = b"test_key";

    let payload = encode_delete(key);
    let decoded_key = decode_delete(&payload).unwrap();

    assert_eq!(decoded_key, key);
}

#[test]
fn test_decode_put_invalid() {
    assert!(decode_put(&[1, 2, 3]).is_err());

    let mut payload = vec![0, 0, 0, 100];
    payload.extend_from_slice(b"short");
    assert!(decode_put(&payload).is_err());
}

#[test]
fn test_decode_delete_invalid() {
    assert!(decode_delete(&[1, 2]).is_err());

    let mut payload = vec![0, 0, 0, 100];
    payload.extend_from_slice(b"short");
    assert!(decode_delete(&payload).is_err());
}

#[test]
fn test_record_kind_conversion() {
    assert_eq!(WalRecordKind::from_u16(1), Some(WalRecordKind::Put));
    assert_eq!(WalRecordKind::from_u16(2), Some(WalRecordKind::Delete));
    assert_eq!(WalRecordKind::from_u16(3), Some(WalRecordKind::PutCommitted));
    assert_eq!(WalRecordKind::from_u16(4), Some(WalRecordKind::DeleteCommitted));
    assert_eq!(WalRecordKind::from_u16(5), Some(WalRecordKind::Commit));
    assert_eq!(WalRecordKind::from_u16(6), Some(WalRecordKind::Checkpoint));
    assert_eq!(WalRecordKind::from_u16(7), Some(WalRecordKind::FlushComplete));
    assert_eq!(WalRecordKind::from_u16(99), None);

    assert_eq!(WalRecordKind::Put.to_u16(), 1);
    assert_eq!(WalRecordKind::Delete.to_u16(), 2);
    assert_eq!(WalRecordKind::PutCommitted.to_u16(), 3);
    assert_eq!(WalRecordKind::DeleteCommitted.to_u16(), 4);
    assert_eq!(WalRecordKind::Commit.to_u16(), 5);
    assert_eq!(WalRecordKind::Checkpoint.to_u16(), 6);
    assert_eq!(WalRecordKind::FlushComplete.to_u16(), 7);
}

#[test]
fn test_encode_decode_put_committed() {
    let key = b"test_key";
    let value = b"test_value";
    let commit_ts = 12345i64;

    let payload = encode_put_committed(key, value, commit_ts);
    let (decoded_key, decoded_value, decoded_ts) = decode_put_committed(&payload).unwrap();

    assert_eq!(decoded_key, key);
    assert_eq!(decoded_value, value);
    assert_eq!(decoded_ts, commit_ts);
}

#[test]
fn test_encode_decode_delete_committed() {
    let key = b"test_key";
    let commit_ts = 12345i64;

    let payload = encode_delete_committed(key, commit_ts);
    let (decoded_key, decoded_ts) = decode_delete_committed(&payload).unwrap();

    assert_eq!(decoded_key, key);
    assert_eq!(decoded_ts, commit_ts);
}

#[test]
fn test_encode_decode_commit() {
    let commit_ts = 12345i64;

    let payload = encode_commit(commit_ts);
    let decoded_ts = decode_commit(&payload).unwrap();

    assert_eq!(decoded_ts, commit_ts);
}

#[test]
fn test_encode_decode_checkpoint() {
    let sequence = 100u64;
    let file_number = 42u64;

    let payload = encode_checkpoint(sequence, file_number);
    let (decoded_seq, decoded_file) = decode_checkpoint(&payload).unwrap();

    assert_eq!(decoded_seq, sequence);
    assert_eq!(decoded_file, file_number);
}

#[test]
fn test_encode_decode_flush_complete() {
    let file_number = 42u64;
    let level = 1u32;

    let payload = encode_flush_complete(file_number, level);
    let (decoded_file, decoded_level) = decode_flush_complete(&payload).unwrap();

    assert_eq!(decoded_file, file_number);
    assert_eq!(decoded_level, level);
}

#[test]
fn test_decode_put_committed_invalid() {
    assert!(decode_put_committed(&[1, 2, 3]).is_err());
}

#[test]
fn test_decode_delete_committed_invalid() {
    assert!(decode_delete_committed(&[1, 2]).is_err());
}

#[test]
fn test_level_metrics() {
    let mut metrics = LSMMetrics::new();

    for level in 0..7 {
        metrics.set_level_size(level, (level as u64 + 1) * 1000);
        metrics.set_level_file_count(level, level + 1);
    }

    for level in 0..7 {
        assert_eq!(metrics.get_level_size(level), (level as u64 + 1) * 1000);
        assert_eq!(metrics.get_level_file_count(level), level + 1);
    }
}

#[test]
fn io_errors_from_a_message_read_back() {
    let err = LSMError::from_io_message("disk on fire".to_string());
    assert_eq!(err.to_string(), "I/O error during unknown: unknown (disk on fire)");
    match err.into_key_value_error() {
        KeyValueError::StorageCorruption(m) => assert_eq!(m, "disk on fire"),
        _ => panic!("expected storage corruption"),
    }
}

#[test]
fn blob_record_size_and_blob_entries() {
    let record = BlobRecord::new(b"key".to_vec(), b"value".to_vec());
    assert_eq!(record.encoded_size(), 16 + 3 + 5);
    assert_eq!(record.encode().len(), record.encoded_size());
    let r = BlobRef::new(3, 40, 24);
    let e = Entry::new_with_blob(b"k".to_vec(), r, 7);
    assert!(e.has_blob());
    assert_eq!(e.blob_ref(), Some(&r));
    assert!(e.inline_value().is_none());
    let c = Entry::with_blob_and_commit_ts(b"k".to_vec(), r, 8, 99);
    assert_eq!(c.commit_ts, Some(99));
    let plain = Entry::new(b"k".to_vec(), Some(b"v".to_vec()), 1);
    assert!(!plain.has_blob());
    assert_eq!(plain.inline_value(), Some(&b"v"[..]));
}

fn rate(num: u64, den: u64) -> f64 {
    if den == 0 {
        0.0
    } else {
        num as f64 / den as f64
    }
}

#[test]
fn test_cache_hit_miss() {
    let mut cache = BlockCache::new(1024 * 1024);
    let key = BlockKey::new(1, 0);
    let block = create_test_block(10);

    assert!(cache.get(&key).is_none());
    assert_eq!(cache.misses(), 1);

    cache.insert(key, block);
    assert!(cache.get(&key).is_some());
    assert_eq!(cache.hits(), 1);

    assert_eq!(rate(cache.hits(), cache.hits() + cache.misses()), 0.5);
}

#[test]
fn test_cache_stats() {
    let mut cache = BlockCache::new(1024 * 1024);
    let key = BlockKey::new(1, 0);
    let block = create_test_block(10);

    cache.insert(key, block);
    cache.get(&key);
    cache.get(&BlockKey::new(2, 0));

    assert_eq!(cache.hits(), 1);
    assert_eq!(cache.misses(), 1);
    assert_eq!(cache.entry_count(), 1);
    assert!(cache.size() > 0);
}

#[test]
fn test_cache_stats_with_evictions() {
    let block = create_test_block(5);
    let mut cache = BlockCache::new(block_size_of(&block) * 2);
    for i in 0..5 {
        cache.insert(BlockKey::new(i, 0), Arc::clone(&block));
    }
    assert_eq!(cache.evictions(), 3);
    assert_eq!(cache.entry_count(), 2);
    assert!(cache.size() <= cache.capacity());
}

#[test]
fn test_cache_utilization() {
    let block = create_test_block(10);
    let mut cache = BlockCache::new(1024 * 1024);
    assert_eq!(cache.size(), 0);
    cache.insert(BlockKey::new(1, 0), Arc::clone(&block));
    assert!(cache.size() > 0);
    assert!(cache.size() <= cache.capacity());
    assert_eq!(cache.entry_count(), 1);
}

#[test]
fn test_hit_rates() {
    let mut metrics = LSMMetrics::new();
    metrics.record_read(100, Duration::from_micros(10));
    metrics.record_memtable_hit();
    metrics.record_read(100, Duration::from_micros(10));
    assert_eq!(rate(metrics.memtable_hits, metrics.total_reads), 0.5);
}

#[test]
fn test_amplification() {
    let mut metrics = LSMMetrics::new();
    metrics.record_write(1000, Duration::from_micros(10));
    metrics.record_flush(2000, Duration::from_millis(10));
    metrics.record_compaction(2000, 3000, Duration::from_millis(100));
    assert_eq!(rate(metrics.bytes_flushed + metrics.bytes_compacted_out, metrics.total_write_bytes), 5.0);
}

#[test]
fn test_snapshot() {
    let mut metrics = LSMMetrics::new();
    metrics.record_write(100, Duration::from_micros(10));
    metrics.set_level_size(0, 1000);
    metrics.set_level_file_count(0, 5);
    assert_eq!(metrics.total_writes(), 1);
    assert_eq!(metrics.get_level_size(0), 1000);
    assert_eq!(metrics.get_level_file_count(0), 5);
}

#[test]
fn test_read_amplification() {
    let mut metrics = LSMMetrics::new();
    assert_eq!(rate(metrics.total_sstable_reads_for_gets, metrics.total_reads), 0.0);
    metrics.record_read(100, Duration::from_micros(10));
    metrics.record_sstable_reads_for_get(3);
    metrics.record_read(100, Duration::from_micros(10));
    metrics.record_sstable_reads_for_get(2);
    metrics.record_read(100, Duration::from_micros(10));
    metrics.record_sstable_reads_for_get(1);
    assert_eq!(rate(metrics.total_sstable_reads_for_gets, metrics.total_reads), 2.0);
}

#[test]
fn test_write_amplification() {
    let mut metrics = LSMMetrics::new();
    metrics.record_write(1000, Duration::from_micros(10));
    metrics.record_flush(2000, Duration::from_millis(10));
    metrics.record_compaction(2000, 1800, Duration::from_millis(100));
    assert_eq!(rate(metrics.bytes_flushed + metrics.bytes_compacted_out, metrics.total_write_bytes), 3.8);
}

#[test]
fn test_space_amplification() {
    let mut metrics = LSMMetrics::new();
    metrics.record_write(1000, Duration::from_micros(10));
    metrics.set_level_size(0, 500);
    metrics.set_level_size(1, 1000);
    metrics.set_level_size(2, 2000);
    assert_eq!(metrics.total_level_size(), 3500);
    assert_eq!(rate(metrics.total_level_size(), metrics.total_write_bytes), 3.5);
}

#[test]
fn test_metrics_snapshot_with_timestamps() {
    let mut metrics = LSMMetrics::new();
    metrics.record_write(100, Duration::from_micros(10));
    metrics.record_read(100, Duration::from_micros(10));
    metrics.record_flush(1000, Duration::from_millis(10));
    metrics.record_compaction(2000, 1500, Duration::from_millis(100));
    metrics.record_sstable_reads_for_get(2);

    assert!(metrics.creation_time() > 0);
    assert!(metrics.last_write_time() > 0);
    assert!(metrics.last_read_time() > 0);
    assert!(metrics.last_flush_time() > 0);
    assert!(metrics.last_compaction_time() > 0);
    assert!(metrics.uptime_seconds() < 60);

    assert!(rate(metrics.total_sstable_reads_for_gets, metrics.total_reads) >= 0.0);
    assert!(rate(metrics.bytes_flushed + metrics.bytes_compacted_out, metrics.total_write_bytes) >= 0.0);
    assert!(rate(metrics.total_level_size(), metrics.total_write_bytes) >= 0.0);
}

#[test]
fn test_bloom_filter_metrics() {
    let mut metrics = LSMMetrics::new();
    metrics.record_bloom_filter_check(BloomFilterResult::TruePositive);
    metrics.record_bloom_filter_check(BloomFilterResult::TruePositive);
    metrics.record_bloom_filter_check(BloomFilterResult::FalsePositive);
    metrics.record_bloom_filter_check(BloomFilterResult::TrueNegative);
    assert_eq!(rate(metrics.bloom_filter_false_positives, metrics.bloom_filter_checks), 0.25);
}

#[test]
fn test_cache_metrics() {
    let mut metrics = LSMMetrics::new();
    metrics.record_block_cache_access(true);
    metrics.record_block_cache_access(true);
    metrics.record_block_cache_access(false);
    let total = metrics.block_cache_hits + metrics.block_cache_misses;
    assert!((rate(metrics.block_cache_hits, total) - 0.666).abs() < 0.01);
}

#[test]
fn epoch_seconds_counts_whole_seconds() {
    assert_eq!(epoch_seconds(Some(Duration::from_millis(2500))), 2);
    assert_eq!(epoch_seconds(Some(Duration::from_secs(1_700_000_000))), 1_700_000_000);
    assert_eq!(epoch_seconds(None), 0);
}

#[test]
fn timestamps_now_follow_the_clock() {
    let t = nanograph_storage::kvt::transaction::Timestamp::now().0;
    let secs = std::time::SystemTime::now().duration_since(std::time::UNIX_EPOCH).unwrap().as_secs() as i64;
    assert!((t / 1000 - secs).abs() <= 2);
}

#[test]
fn limited_iterator_yields_the_first_pairs() {
    let mut it = LSMIterator::new(three_entries(), false);
    it.set_limit(2);
    let pairs = it.collect_pairs();
    assert_eq!(pairs.len(), 2);
    assert_eq!(pairs[0].0, b"key1".to_vec());
    assert_eq!(pairs[1].0, b"key2".to_vec());
    let mut it = LSMIterator::new(three_entries(), true);
    it.set_limit(10);
    let keys: Vec<Vec<u8>> = it.collect_pairs().into_iter().map(|p| p.0).collect();
    assert_eq!(keys, vec![b"key3".to_vec(), b"key2".to_vec(), b"key1".to_vec()]);
}

#[test]
fn resumed_iterator_yields_the_rest() {
    let mut it = LSMIterator::new(three_entries(), false);
    it.next();
    let cursor = it.get_cursor();
    assert_eq!(cursor.position, 1);
    let resumed = LSMIterator::from_cursor(it.entries().clone(), cursor, false);
    let rest = resumed.collect_pairs();
    assert_eq!(rest, it.collect_pairs());
    assert_eq!(rest.len(), 2);
    assert_eq!(rest[0].0, b"key2".to_vec());
}

#[test]
fn merge_takes_the_first_entry_of_a_repeated_key() {
    let newer = vec![
        Entry::new(b"a".to_vec(), None, 9),
        Entry::new(b"a".to_vec(), Some(b"stale".to_vec()), 8),
        Entry::new(b"b".to_vec(), Some(b"b1".to_vec()), 7),
        Entry::new(b"b".to_vec(), None, 6),
    ];
    let older = vec![Entry::new(b"a".to_vec(), Some(b"old".to_vec()), 1), Entry::new(b"c".to_vec(), Some(b"c0".to_vec()), 2)];
    let pairs = LSMIterator::merge(vec![newer, older], false).collect_pairs();
    assert_eq!(pairs, vec![(b"b".to_vec(), b"b1".to_vec()), (b"c".to_vec(), b"c0".to_vec())]);
}

#[test]
fn millis_since_epoch_follows_the_reading() {
    assert_eq!(nanograph_storage::kvt::transaction::millis_since_epoch(Some(Duration::from_millis(1500))), 1500);
    assert_eq!(nanograph_storage::kvt::transaction::millis_since_epoch(Some(Duration::from_nanos(1_700_000_000_123_456_789))), 1_700_000_000_123);
    assert_eq!(nanograph_storage::kvt::transaction::millis_since_epoch(None), 0);
}

#[test]
fn varint_errors_follow_the_continuation_bits() {
    assert!(read_varint(&[0x80; 10]).is_err());
    assert!(read_varint(&[0x80, 0x80]).is_err());
    assert_eq!(read_varint(&[0x80, 0x80, 0x01]).unwrap(), (16384, 3));
    let mut nine = vec![0x80u8; 9];
    nine.push(0x01);
    assert!(read_varint(&nine).is_ok());
}
