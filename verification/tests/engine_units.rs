use nanograph_storage::kvt::error::KeyValueError;
use nanograph_storage::kvt::types::{KeyBound, KeyRange};
use nanograph_storage::lsm::bloblog::{BlobLogState, BlobRecord, BlobRef};
use nanograph_storage::lsm::compaction::CompactionTask;
use nanograph_storage::lsm::engine::{search_level, EngineState, RecoveryTally, ReplayStep, StartupReplay};
use nanograph_storage::lsm::level::{apply_compaction, level_to_compact, Level};
use nanograph_storage::lsm::manifest::ManifestEntry;
use nanograph_storage::lsm::memtable::ValueLocation;
use nanograph_storage::lsm::sstable::{SSTable, SSTableMetadata};
use nanograph_storage::lsm::transaction::{TransactionRegistry, TransactionState, WriteOp};
use nanograph_storage::lsm::wal_record::{encode_checkpoint, encode_commit, encode_delete, encode_put, encode_put_committed};

fn table(file_number: u64, min: &[u8], max: &[u8], size: u64) -> SSTableMetadata {
    SSTableMetadata {
        file_number,
        level: 0,
        min_key: min.to_vec(),
        max_key: max.to_vec(),
        min_sequence: 0,
        max_sequence: 0,
        entry_count: 1,
        file_size: size,
        created_at: 0,
    }
}

fn inline(v: &Option<ValueLocation>) -> Option<Vec<u8>> {
    v.as_ref().map(|l| l.as_inline().unwrap().to_vec())
}

#[test]
fn level_add_then_remove_restores() {
    let mut level = Level::new(1);
    level.add_sstable(table(1, b"a", b"c", 100));
    level.add_sstable(table(2, b"d", b"f", 50));
    assert_eq!(level.stats().total_size, 150);
    assert_eq!(level.stats().num_sstables, 2);
    level.remove_sstable(2);
    assert_eq!(level.stats().total_size, 100);
    assert_eq!(level.table_count(), 1);
    assert_eq!(level.table_at(0).file_number, 1);
    level.remove_sstable(99);
    assert_eq!(level.stats().total_size, 100);
}

#[test]
fn level_zero_compacts_at_four_files() {
    let mut level = Level::new(0);
    for i in 0..3 {
        level.add_sstable(table(i, b"a", b"z", 10));
    }
    assert!(!level.needs_compaction(0));
    level.add_sstable(table(3, b"a", b"z", 10));
    assert!(level.needs_compaction(0));

    let mut deep = Level::new(2);
    deep.add_sstable(table(7, b"a", b"z", 1000));
    assert!(!deep.needs_compaction(1000));
    assert!(deep.needs_compaction(999));
}

#[test]
fn level_to_compact_picks_first_due_level() {
    let mut levels: Vec<Level> = (0..7).map(Level::new).collect();
    assert_eq!(level_to_compact(&levels, 100), None);
    // Level 1 holds 100 * 10 bytes at most.
    levels[1].add_sstable(table(1, b"a", b"b", 1001));
    assert_eq!(level_to_compact(&levels, 100), Some(1));
    for i in 0..4 {
        levels[0].add_sstable(table(10 + i, b"a", b"b", 1));
    }
    assert_eq!(level_to_compact(&levels, 100), Some(0));
}

#[test]
fn apply_compaction_moves_tables() {
    let mut levels: Vec<Level> = (0..7).map(Level::new).collect();
    levels[0].add_sstable(table(1, b"a", b"m", 10));
    levels[0].add_sstable(table(2, b"n", b"z", 20));
    levels[1].add_sstable(table(3, b"a", b"z", 30));
    let task = CompactionTask {
        source_level: 0,
        target_level: 1,
        source_sstables: vec![table(1, b"a", b"m", 10)],
        target_sstables: vec![table(3, b"a", b"z", 30)],
    };
    let fresh = vec![table(4, b"a", b"z", 35)];
    apply_compaction(&mut levels, &task, &fresh);
    assert_eq!(levels[0].table_count(), 1);
    assert_eq!(levels[0].table_at(0).file_number, 2);
    assert_eq!(levels[1].table_count(), 1);
    assert_eq!(levels[1].table_at(0).file_number, 4);
    assert_eq!(levels[1].stats().total_size, 35);
}

#[test]
fn binary_search_finds_covering_table() {
    let mut level = Level::new(1);
    level.add_sstable(table(1, b"a", b"c", 1));
    level.add_sstable(table(2, b"e", b"g", 1));
    level.add_sstable(table(3, b"k", b"m", 1));
    assert_eq!(search_level(&level, b"f"), Some(1));
    assert_eq!(search_level(&level, b"a"), Some(0));
    assert_eq!(search_level(&level, b"m"), Some(2));
    assert_eq!(search_level(&level, b"h"), None);
    assert_eq!(search_level(&level, b"z"), None);
}

#[test]
fn engine_read_after_write() {
    let mut engine = EngineState::new(1 << 20);
    assert!(!engine.put(b"k1".to_vec(), b"v1".to_vec()));
    let e = engine.lookup(b"k1").unwrap();
    assert_eq!(inline(&e.value), Some(b"v1".to_vec()));
    assert_eq!(e.commit_ts, Some(1));
    engine.delete(b"k1".to_vec());
    let e = engine.lookup(b"k1").unwrap();
    assert!(e.value.is_none());
    assert_eq!(e.commit_ts, Some(2));
    assert!(engine.lookup(b"absent").is_none());
    let stats = engine.stats();
    assert_eq!(stats.total_writes, 2);
    assert_eq!(stats.total_reads, 3);
    assert_eq!(stats.levels.len(), 7);
}

#[test]
fn engine_flush_threshold_and_freeze() {
    let mut engine = EngineState::new(10);
    assert!(engine.put(b"key".to_vec(), b"a long enough value".to_vec()));
    assert!(engine.begin_flush());
    assert!(!engine.begin_flush());
    // The frozen memtable still answers lookups.
    assert!(engine.lookup(b"key").is_some());
    let (entries, seq) = engine.flush_contents().unwrap();
    assert_eq!(entries.len(), 1);
    assert_eq!(seq, 1);
    let n = engine.allocate_file_number();
    assert_eq!(n, 1);
    engine.add_flushed_table(table(n, b"key", b"key", 64));
    engine.end_flush();
    assert!(engine.flush_contents().is_none());
    assert!(engine.lookup(b"key").is_none());
    assert_eq!(engine.sstable_candidates(b"key"), vec![1]);
    assert_eq!(engine.sstable_candidates(b"other"), Vec::<u64>::new());
    assert_eq!(engine.stats().total_flushes, 1);
}

#[test]
fn engine_candidates_newest_level0_first() {
    let mut engine = EngineState::new(1 << 20);
    engine.add_flushed_table(table(1, b"a", b"m", 1));
    engine.add_flushed_table(table(2, b"c", b"z", 1));
    assert_eq!(engine.sstable_candidates(b"d"), vec![2, 1]);
    assert_eq!(engine.sstable_candidates(b"b"), vec![1]);
}

#[test]
fn engine_replay_startup_records() {
    let mut engine = EngineState::new(1 << 20);
    let put = encode_put(b"k", b"v");
    assert!(matches!(engine.replay_startup_record(1, &put), Ok(StartupReplay::Applied)));
    let committed = encode_put_committed(b"j", b"w", 77);
    assert!(matches!(engine.replay_startup_record(3, &committed), Ok(StartupReplay::Applied)));
    assert!(matches!(engine.replay_startup_record(5, &encode_commit(1)), Ok(StartupReplay::Skipped)));
    assert!(matches!(engine.replay_startup_record(42, &[]), Ok(StartupReplay::Skipped)));
    let err = engine.replay_startup_record(1, &[1, 2, 3]);
    assert!(matches!(err, Err(KeyValueError::StorageCorruption(ref m)) if m == "WAL Put record too short"));
    assert_eq!(inline(&engine.lookup(b"k").unwrap().value), Some(b"v".to_vec()));
    assert_eq!(engine.lookup(b"j").unwrap().commit_ts, Some(77));
}

#[test]
fn engine_tolerant_replay() {
    let mut engine = EngineState::new(1 << 20);
    assert_eq!(engine.replay_record(1, &encode_put(b"k", b"v")), ReplayStep::Applied);
    assert_eq!(engine.replay_record(2, &[9]), ReplayStep::Malformed);
    assert_eq!(engine.replay_record(2, &encode_delete(b"k")), ReplayStep::Applied);
    assert_eq!(
        engine.replay_record(6, &encode_checkpoint(5, 9)),
        ReplayStep::Checkpoint { sequence: 5, file_number: 9 }
    );
    assert_eq!(engine.replay_record(0, &[]), ReplayStep::Unknown);
    let e = engine.lookup(b"k").unwrap();
    assert!(e.value.is_none());
    assert_eq!(e.commit_ts, None);
}

#[test]
fn engine_scan_merges_memtables() {
    let mut engine = EngineState::new(1 << 20);
    engine.put(b"a".to_vec(), b"old".to_vec());
    engine.put(b"b".to_vec(), b"1".to_vec());
    engine.begin_flush();
    engine.put(b"a".to_vec(), b"new".to_vec());
    engine.put(b"c".to_vec(), b"2".to_vec());
    engine.delete(b"b".to_vec());
    let range = KeyRange::all();
    let it = engine.scan(&range, &Vec::new());
    let pairs = it.entries().clone();
    assert_eq!(pairs, vec![(b"a".to_vec(), b"new".to_vec()), (b"c".to_vec(), b"2".to_vec())]);

    let limited = KeyRange::from_to(b"a".to_vec(), b"c".to_vec()).reversed().with_limit(1);
    let mut it = engine.scan(&limited, &Vec::new());
    assert_eq!(it.entries().clone(), vec![(b"a".to_vec(), b"new".to_vec())]);
    assert!(it.next().is_some());
    assert!(it.next().is_none());
}

#[test]
fn engine_commit_entry_prefers_active() {
    let mut engine = EngineState::new(1 << 20);
    engine.replay_record(1, &encode_put(b"k", b"v"));
    assert!(engine.commit_entry(b"k", 9));
    assert_eq!(engine.lookup(b"k").unwrap().commit_ts, Some(9));
    assert!(!engine.commit_entry(b"k", 10));
    assert!(!engine.commit_entry(b"missing", 10));
}

#[test]
fn engine_compaction_target_and_apply() {
    let mut engine = EngineState::new(100);
    assert_eq!(engine.compaction_target(), None);
    for i in 0..4 {
        engine.add_flushed_table(table(i, b"a", b"z", 10));
    }
    assert_eq!(engine.compaction_target(), Some(0));
    let task = engine.plan_compaction().unwrap();
    assert_eq!(task.source_level, 0);
    assert_eq!(task.target_level, 1);
    assert_eq!(task.source_sstables.len(), 4);
    assert!(task.target_sstables.is_empty());
    engine.apply_compaction(&task, &vec![table(9, b"a", b"z", 40)]);
    assert_eq!(engine.compaction_target(), None);
    let stats = engine.stats();
    assert_eq!(stats.total_compactions, 1);
    assert_eq!(stats.levels[0].num_sstables, 0);
    assert_eq!(stats.levels[1].total_size, 40);
}

#[test]
fn transaction_reads_own_writes() {
    let mut tx = TransactionState::new(1, 100);
    assert_eq!(tx.get_from_buffer(0, b"k"), None);
    tx.put(0, b"k", b"v1").unwrap();
    tx.put(0, b"k", b"v2").unwrap();
    tx.put(1, b"k", b"other shard").unwrap();
    assert_eq!(tx.get_from_buffer(0, b"k"), Some(Some(b"v2".to_vec())));
    assert_eq!(tx.delete(0, b"k", true).unwrap(), true);
    assert_eq!(tx.get_from_buffer(0, b"k"), Some(None));
    assert_eq!(tx.delete(0, b"nothing", false).unwrap(), false);
    assert_eq!(tx.get_from_buffer(0, b"nothing"), None);
    assert_eq!(tx.get_from_buffer(1, b"k"), Some(Some(b"other shard".to_vec())));
}

#[test]
fn transaction_commit_hands_over_writes_in_order() {
    let mut tx = TransactionState::new(7, 100);
    tx.put(0, b"a", b"1").unwrap();
    tx.delete(0, b"a", true).unwrap();
    let ops = tx.commit().unwrap();
    assert_eq!(ops.len(), 2);
    assert!(matches!(&ops[0], (0, WriteOp::Put { key, value }) if key == b"a" && value == b"1"));
    assert!(matches!(&ops[1], (0, WriteOp::Delete { key }) if key == b"a"));
    assert!(matches!(tx.put(0, b"b", b"2"), Err(KeyValueError::WriteConflict)));
    assert!(matches!(tx.commit(), Err(KeyValueError::WriteConflict)));
    assert!(matches!(tx.rollback(), Err(KeyValueError::WriteConflict)));
    assert!(tx.check_active().is_err());
    assert_eq!(tx.id(), 7);
    assert_eq!(tx.snapshot_ts(), 100);
}

#[test]
fn transaction_rollback_discards_writes() {
    let mut tx = TransactionState::new(1, 5);
    tx.put(0, b"a", b"1").unwrap();
    tx.rollback().unwrap();
    assert_eq!(tx.get_from_buffer(0, b"a"), None);
    assert!(matches!(tx.delete(0, b"a", true), Err(KeyValueError::WriteConflict)));
}

#[test]
fn registry_watermark_is_oldest_active_snapshot() {
    let mut reg = TransactionRegistry::new();
    assert_eq!(reg.min_active_snapshot_seq(), None);
    let a = reg.begin(300);
    let b = reg.begin(100);
    let c = reg.begin(200);
    assert_eq!((a, b, c), (1, 2, 3));
    assert_eq!(reg.active_transaction_count(), 3);
    assert_eq!(reg.min_active_snapshot_seq(), Some(100));
    reg.remove_transaction(b);
    assert_eq!(reg.min_active_snapshot_seq(), Some(200));
    reg.remove_transaction(b);
    assert_eq!(reg.active_transaction_count(), 2);
    reg.remove_transaction(a);
    reg.remove_transaction(c);
    assert_eq!(reg.min_active_snapshot_seq(), None);
}

#[test]
fn blob_log_accounting() {
    let mut log = BlobLogState::new();
    let f = log.allocate_file_id();
    assert_eq!(f, 0);
    assert_eq!(log.allocate_file_id(), 1);
    log.record_blob(f, 0, 30, 1234);
    log.record_blob(f, 30, 40, 9999);
    let m = log.get_file_metadata(f).unwrap();
    assert_eq!(m.file_size, 70);
    assert_eq!(m.blob_count, 2);
    assert_eq!(m.live_blob_count, 2);
    assert_eq!(m.live_data_size, 70);
    assert_eq!(m.created_at, 1234);
    log.mark_dead(&BlobRef::new(f, 0, 30));
    let m = log.get_file_metadata(f).unwrap();
    assert_eq!(m.live_blob_count, 1);
    assert_eq!(m.live_data_size, 40);
    log.mark_dead(&BlobRef::new(f, 30, 100));
    let m = log.get_file_metadata(f).unwrap();
    assert_eq!(m.live_blob_count, 0);
    assert_eq!(m.live_data_size, 0);
    assert!(log.get_file_metadata(5).is_none());
    assert_eq!(log.file_metadata().len(), 1);
}

#[test]
fn key_bounds_in_scans() {
    let mut engine = EngineState::new(1 << 20);
    for k in [b"a", b"b", b"c", b"d"] {
        engine.put(k.to_vec(), b"x".to_vec());
    }
    let range = KeyRange::new(KeyBound::Excluded(b"a".to_vec()), KeyBound::Included(b"c".to_vec()));
    let it = engine.scan(&range, &Vec::new());
    let keys: Vec<Vec<u8>> = it.entries().iter().map(|p| p.0.clone()).collect();
    assert_eq!(keys, vec![b"b".to_vec(), b"c".to_vec()]);
}

#[test]
fn engine_key_count_and_bytes() {
    let mut engine = EngineState::new(1 << 20);
    engine.put(b"a".to_vec(), b"1".to_vec());
    engine.put(b"b".to_vec(), b"2".to_vec());
    engine.add_flushed_table(table(1, b"a", b"z", 500));
    assert_eq!(engine.key_count(), Some(1002));
    let (total, data) = engine.byte_totals().unwrap();
    assert_eq!(total, data);
    assert_eq!(total, engine.stats().memtable_size as u64 + 500);
}

#[test]
fn engine_totals_overflow_is_reported() {
    let mut engine = EngineState::new(1 << 20);
    engine.add_flushed_table(table(1, b"a", b"c", u64::MAX));
    assert_eq!(engine.byte_totals(), Some((u64::MAX, u64::MAX)));
    engine.put(b"k".to_vec(), b"v".to_vec());
    assert_eq!(engine.byte_totals(), None);
    engine.add_flushed_table(table(2, b"d", b"f", 0));
    assert_eq!(engine.key_count(), Some(2001));
}

#[test]
fn manifest_save_then_restore_gives_back_the_tree() {
    let mut engine = EngineState::new(1 << 20);
    engine.add_flushed_table(table(3, b"a", b"c", 10));
    engine.add_flushed_table(table(5, b"d", b"f", 30));
    let manifest = engine.manifest_entries();
    assert_eq!(manifest.len(), 2);
    assert_eq!(manifest[0].file_number, 3);
    assert_eq!(manifest[0].level, 0);
    assert_eq!(manifest[1].metadata.file_size, 30);

    let mut restored = EngineState::new(1 << 20);
    restored.restore_manifest(&manifest);
    let stats = restored.stats();
    assert_eq!(stats.levels[0].num_sstables, 2);
    assert_eq!(stats.levels[0].total_size, 40);
    assert_eq!(restored.sstable_candidates(b"e"), vec![5]);
    assert_eq!(restored.allocate_file_number(), 6);
}

#[test]
fn manifest_restore_skips_unknown_levels() {
    let mut restored = EngineState::new(1 << 20);
    let entries = vec![
        ManifestEntry { file_number: 40, level: 9, metadata: table(40, b"a", b"b", 5) },
        ManifestEntry { file_number: 2, level: 1, metadata: table(2, b"a", b"b", 7) },
    ];
    restored.restore_manifest(&entries);
    let stats = restored.stats();
    assert_eq!(stats.levels[1].num_sstables, 1);
    assert_eq!(stats.levels[1].total_size, 7);
    assert_eq!(restored.allocate_file_number(), 3);
}

#[test]
fn recovery_tally_counts_used_records_and_keeps_last_checkpoint() {
    let mut tally = RecoveryTally::new();
    tally.note(ReplayStep::Applied);
    tally.note(ReplayStep::Malformed);
    tally.note(ReplayStep::Checkpoint { sequence: 4, file_number: 9 });
    tally.note(ReplayStep::Unknown);
    tally.note(ReplayStep::Marker);
    tally.note(ReplayStep::Checkpoint { sequence: 7, file_number: 12 });
    assert_eq!(tally.recovered, 4);
    assert_eq!(tally.last_checkpoint, Some((7, 12)));
}

#[test]
fn flushed_memtable_reads_back_from_its_table() {
    let mut engine = EngineState::new(1 << 20);
    engine.put(b"apple".to_vec(), b"red".to_vec());
    engine.delete(b"banana".to_vec());
    assert!(engine.flush_table(4096).is_none());
    assert!(engine.begin_flush());
    let table = engine.flush_table(4096).unwrap();
    assert_eq!(table.file_number, 1);
    assert_eq!(table.sequence, 2);
    assert_eq!(table.metadata.entry_count, 2);
    assert_eq!(table.metadata.min_key, b"apple".to_vec());
    assert_eq!(table.metadata.max_key, b"banana".to_vec());
    let apple = SSTable::get(&table.bytes, b"apple").unwrap().unwrap();
    assert_eq!(apple.value_as_vec(), Some(b"red".to_vec()));
    assert!(SSTable::get(&table.bytes, b"banana").unwrap().unwrap().is_deletion());
    assert!(SSTable::get(&table.bytes, b"cherry").unwrap().is_none());
    assert_eq!(engine.allocate_file_number(), 2);
}

#[test]
fn blob_log_totals_and_file_removal() {
    let mut log = BlobLogState::new();
    let a = log.allocate_file_id();
    let b = log.allocate_file_id();
    log.record_blob(a, 0, 30, 1);
    log.record_blob(b, 0, 50, 2);
    log.record_blob(b, 50, 20, 2);
    log.mark_dead(&BlobRef::new(b, 0, 50));
    assert_eq!(log.file_count(), 2);
    assert_eq!(log.total_size(), 100);
    assert_eq!(log.live_data_size(), 50);
    log.remove_file(b);
    assert_eq!(log.file_count(), 1);
    assert_eq!(log.total_size(), 30);
    assert_eq!(log.live_data_size(), 30);
    assert!(log.get_file_metadata(b).is_none());
    log.remove_file(77);
    assert_eq!(log.file_count(), 1);
}

#[test]
fn checkpoint_payload_records_sequence_and_file_counter() {
    let mut engine = EngineState::new(1 << 20);
    engine.put(b"k".to_vec(), b"v".to_vec());
    engine.put(b"l".to_vec(), b"w".to_vec());
    assert_eq!(engine.allocate_file_number(), 1);
    assert_eq!(engine.checkpoint_payload(), encode_checkpoint(2, 2));
}

#[test]
fn plan_compaction_counts_runs_that_find_nothing() {
    let mut engine = EngineState::new(100);
    assert!(engine.plan_compaction().is_none());
    assert_eq!(engine.stats().total_compactions, 1);
}

#[test]
fn snapshot_lookup_sees_only_commits_at_or_before_it() {
    let mut engine = EngineState::new(1 << 20);
    engine.put_committed(b"a".to_vec(), b"old".to_vec(), 10);
    assert_eq!(inline(&engine.lookup_at_snapshot(b"a", 10).unwrap().value), Some(b"old".to_vec()));
    assert!(engine.lookup_at_snapshot(b"a", 9).is_none());
    assert!(engine.begin_flush());
    engine.put_committed(b"a".to_vec(), b"new".to_vec(), 20);
    assert_eq!(inline(&engine.lookup_at_snapshot(b"a", 25).unwrap().value), Some(b"new".to_vec()));
    assert_eq!(inline(&engine.lookup_at_snapshot(b"a", 15).unwrap().value), Some(b"old".to_vec()));
    assert!(engine.lookup_at_snapshot(b"a", 5).is_none());
    assert!(engine.lookup_at_snapshot(b"b", 25).is_none());
}


#[test]
fn test_blob_log_write_read() {
    let mut log = BlobLogState::new();
    let mut file: Vec<u8> = Vec::new();
    let file_id = log.allocate_file_id();

    let encoded = BlobRecord::new(b"key1".to_vec(), b"value1".to_vec()).encode();
    let offset = file.len() as u64;
    file.extend_from_slice(&encoded);
    log.record_blob(file_id, offset, encoded.len() as u64, 0);
    let blob_ref = BlobRef::new(file_id, offset, encoded.len() as u32);

    let start = blob_ref.offset as usize;
    let stored = &file[start..start + blob_ref.length as usize];
    let value = BlobRecord::decode(stored).unwrap().value;
    assert_eq!(value, b"value1");
}

#[test]
fn test_blob_log_gc_candidates() {
    let mut log = BlobLogState::new();
    let mut file: Vec<u8> = Vec::new();
    let file_id = log.allocate_file_id();
    let mut refs = Vec::new();
    for (k, v) in [(b"key1", b"value1"), (b"key2", b"value2")] {
        let encoded = BlobRecord::new(k.to_vec(), v.to_vec()).encode();
        let offset = file.len() as u64;
        file.extend_from_slice(&encoded);
        log.record_blob(file_id, offset, encoded.len() as u64, 0);
        refs.push(BlobRef::new(file_id, offset, encoded.len() as u32));
    }

    log.mark_dead(&refs[0]);

    let metadata = log.get_file_metadata(file_id).unwrap();
    let live_ratio = metadata.live_data_size as f64 / metadata.file_size as f64;
    assert!(live_ratio < 0.6);
    assert!(live_ratio > 0.4);

    let candidates: Vec<u64> = log
        .file_metadata()
        .iter()
        .filter(|m| m.blob_count > 0 && (m.live_data_size as f64 / m.file_size as f64) <= 0.5)
        .map(|m| m.file_id)
        .collect();
    assert_eq!(candidates, vec![file_id]);
}
