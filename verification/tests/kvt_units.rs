use nanograph_storage::kvt::metacache::{MetadataCache, ObjectType};
use nanograph_storage::kvt::config::{NamespaceConfig, StorageEngineType, TableConfig, TableSharding};
use nanograph_storage::kvt::memory::MemoryKeyValueIterator;
use nanograph_storage::kvt::transaction::Timestamp;
use nanograph_storage::kvt::types::{key_in_range, HashFunction, KeyBound, KeyRange, Partitioner};
use nanograph_storage::lmdb::config::{LMDBConfig, LMDBStorageConfig};
use nanograph_storage::kvt::error::KeyValueError;
use nanograph_storage::lmdb::iterator::{ChunkStart, ChunkStep, ChunkedScan, LMDBMemoryIterator};
use nanograph_storage::lmdb::transaction::transaction_scan;
use nanograph_storage::lsm::transaction::TransactionState;
use nanograph_storage::lsm::metrics::{BloomFilterResult, LSMMetrics};
use std::time::Duration;

fn pairs(keys: &[&str]) -> Vec<(Vec<u8>, Vec<u8>)> {
    keys.iter().map(|k| (k.as_bytes().to_vec(), format!("v{}", k).into_bytes())).collect()
}

#[test]
fn fnv_hash_known_values() {
    // FNV-1a 64 of the empty string is the offset basis; of "a" a published value.
    assert_eq!(HashFunction::Murmur3.hash(b""), 0xcbf29ce484222325);
    assert_eq!(HashFunction::XXHash.hash(b"a"), 0xaf63dc4c8601ec8c);
    assert_eq!(HashFunction::CityHash.hash(b"a"), 0xaf63dc4c8601ec8c);
}

#[test]
fn hash_partitioner_stays_in_range() {
    let p = Partitioner::default();
    for i in 0..50u32 {
        let key = format!("key{}", i);
        assert!(p.get_shard_index(key.as_bytes(), 7) < 7);
    }
    assert_eq!(p.get_shard_index(b"a", 1), 0);
    assert_eq!(p.get_shard_index(b"a", 4), (0xaf63dc4c8601ec8cu64 % 4) as u32);
}

#[test]
fn range_partitioner_first_match_or_zero() {
    let p = Partitioner::Range {
        ranges: vec![(b"a".to_vec(), b"m".to_vec()), (b"m".to_vec(), b"z".to_vec()), (b"c".to_vec(), b"d".to_vec())],
    };
    assert_eq!(p.get_shard_index(b"c", 3), 0);
    assert_eq!(p.get_shard_index(b"m", 3), 1);
    assert_eq!(p.get_shard_index(b"z", 3), 0);
}

#[test]
fn list_partitioner_first_list_holding_key() {
    let p = Partitioner::List { keys: vec![vec![b"x".to_vec()], vec![b"y".to_vec(), b"x".to_vec()]] };
    assert_eq!(p.get_shard_index(b"x", 2), 0);
    assert_eq!(p.get_shard_index(b"y", 2), 1);
    assert_eq!(p.get_shard_index(b"w", 2), 0);
}

#[test]
fn time_partitioner_uses_big_endian_timestamp() {
    let p = Partitioner::Time { interval_seconds: 10 };
    let key = 125i64.to_be_bytes();
    assert_eq!(p.get_shard_index(&key, 5), 2);
    let neg = (-125i64).to_be_bytes();
    assert_eq!(p.get_shard_index(&neg, 5), 2);
    assert_eq!(p.get_shard_index(b"short", 5), 0);
}

#[test]
fn prefix_ranges() {
    let r = KeyRange::prefix(b"user:".to_vec());
    assert!(key_in_range(b"user:1", &r));
    assert!(key_in_range(b"user:", &r));
    assert!(!key_in_range(b"user", &r));
    assert!(!key_in_range(b"user;", &r));
    assert!(matches!(r.end, KeyBound::Excluded(ref e) if e == b"user;"));

    let r = KeyRange::prefix(vec![1, 255]);
    assert!(matches!(r.end, KeyBound::Excluded(ref e) if e == &vec![2]));
    assert!(key_in_range(&[1, 255, 7], &r));
    assert!(key_in_range(&[1, 255, 255, 255], &r));
    assert!(!key_in_range(&[1, 254, 9], &r));
    assert!(!key_in_range(&[2], &r));

    let r = KeyRange::prefix(vec![255, 255]);
    assert!(matches!(r.end, KeyBound::Unbounded));
    assert!(key_in_range(&[255, 255, 0], &r));
    assert!(!key_in_range(&[255, 254], &r));

    let r = KeyRange::prefix(vec![]);
    assert!(matches!(r.end, KeyBound::Unbounded));
    assert!(key_in_range(b"", &r));
    assert!(key_in_range(b"anything", &r));
}

#[test]
fn key_range_builders() {
    let r = KeyRange::all();
    assert!(key_in_range(b"anything", &r));
    let r = KeyRange::from_to(b"b".to_vec(), b"d".to_vec()).with_limit(3).reversed();
    assert_eq!(r.limit, Some(3));
    assert!(r.reverse);
    assert!(key_in_range(b"b", &r));
    assert!(!key_in_range(b"d", &r));
    let r = KeyRange::default();
    assert!(r.limit.is_none());
}

#[test]
fn table_config_options_replace_in_place() {
    let c = TableConfig::new("t".to_string(), StorageEngineType::lsm_type())
        .with_option("a".to_string(), "1".to_string())
        .with_option("b".to_string(), "2".to_string())
        .with_option("a".to_string(), "3".to_string());
    assert_eq!(c.options, vec![("a".to_string(), "3".to_string()), ("b".to_string(), "2".to_string())]);
    assert_eq!(c.engine_type.as_str(), "lsm");
    assert!(matches!(c.sharding_config, TableSharding::Single));
    let c = c.with_sharding(4, Partitioner::default(), 3);
    assert!(matches!(c.sharding_config, TableSharding::Multiple { shard_count: 4, replication_factor: 3, .. }));
    assert_eq!(StorageEngineType::btree_type().as_str(), "btree");
    assert_eq!(StorageEngineType::art_type().as_str(), "art");
    assert_eq!(StorageEngineType::new("custom".to_string()).as_str(), "custom");
    assert_eq!(NamespaceConfig::new("ns".to_string()).name, "ns");
}

#[test]
fn timestamps() {
    assert_eq!(Timestamp::epoch().0, 0);
    assert_eq!(Timestamp(1500).to_string(), "Timestamp(1500ms)");
    assert_eq!(Timestamp(-3).to_string(), "Timestamp(-3ms)");
    assert!(Timestamp::now().0 > 0);
}

#[test]
fn memory_iterator_seek_and_walk() {
    let mut it = MemoryKeyValueIterator::new(pairs(&["a", "c", "e"]));
    assert!(it.valid());
    assert_eq!(it.position(), Some(b"a".to_vec()));
    it.seek(b"b").unwrap();
    assert_eq!(it.position(), Some(b"c".to_vec()));
    assert_eq!(it.next_entry(), Some((b"c".to_vec(), b"vc".to_vec())));
    assert_eq!(it.next_entry(), Some((b"e".to_vec(), b"ve".to_vec())));
    assert_eq!(it.next_entry(), None);
    assert!(!it.valid());
    it.seek(b"z").unwrap();
    assert_eq!(it.position(), None);
}

#[test]
fn lmdb_memory_iterator() {
    let mut it = LMDBMemoryIterator::new(pairs(&["k1", "k2"]));
    it.seek(b"k2").unwrap();
    assert_eq!(it.position(), Some(b"k2".to_vec()));
    assert!(it.valid());
    assert!(it.next_entry().is_some());
    assert!(!it.valid());
}

#[test]
fn chunked_scan_reads_in_chunks() {
    let range = KeyRange::new(KeyBound::Excluded(b"a".to_vec()), KeyBound::Included(b"c".to_vec())).with_limit(5);
    let mut scan = ChunkedScan::new(range);
    assert!(matches!(scan.next_entry(), ChunkStep::NeedChunk));
    let plan = scan.begin_chunk().unwrap();
    assert_eq!(plan.size, 5);
    assert!(matches!(plan.start, ChunkStart::From(ref k) if k == b"a"));
    // The cursor yields a, b, c, d: a is skipped (excluded start), d ends the scan.
    assert!(scan.accept(plan.size, b"a", b"1"));
    assert!(scan.accept(plan.size, b"b", b"2"));
    assert!(scan.accept(plan.size, b"c", b"3"));
    assert!(!scan.accept(plan.size, b"d", b"4"));
    scan.end_chunk();
    assert_eq!(scan.position(), Some(b"c".to_vec()));
    assert!(matches!(scan.next_entry(), ChunkStep::Entry((ref k, _)) if k == b"b"));
    assert!(matches!(scan.next_entry(), ChunkStep::Entry((ref k, _)) if k == b"c"));
    assert!(matches!(scan.next_entry(), ChunkStep::Done));
    assert!(!scan.valid());
    scan.seek(b"b");
    assert!(scan.valid());
    let plan = scan.begin_chunk().unwrap();
    assert!(matches!(plan.start, ChunkStart::From(ref k) if k == b"b"));
}

#[test]
fn chunked_scan_reverse_and_limit() {
    let range = KeyRange::all().reversed().with_limit(2);
    let mut scan = ChunkedScan::new(range);
    let plan = scan.begin_chunk().unwrap();
    assert_eq!(plan.size, usize::MAX);
    assert!(matches!(plan.start, ChunkStart::First));
    // The whole range is read before the scan turns around.
    assert!(scan.accept(plan.size, b"a", b"1"));
    assert!(scan.accept(plan.size, b"b", b"2"));
    assert!(scan.accept(plan.size, b"c", b"3"));
    scan.end_chunk();
    assert!(matches!(scan.next_entry(), ChunkStep::Entry((ref k, _)) if k == b"c"));
    assert!(matches!(scan.next_entry(), ChunkStep::Entry((ref k, _)) if k == b"b"));
    assert!(matches!(scan.next_entry(), ChunkStep::Done));
    assert!(scan.begin_chunk().is_none());
}

#[test]
fn chunked_scan_passes_over_only_the_excluded_start() {
    let range = KeyRange::new(KeyBound::Excluded(b"a".to_vec()), KeyBound::Unbounded);
    let mut scan = ChunkedScan::new(range);
    let plan = scan.begin_chunk().unwrap();
    // The database holds no key "a": the first key read is kept.
    assert!(scan.accept(plan.size, b"b", b"2"));
    assert!(scan.accept(plan.size, b"c", b"3"));
    scan.end_chunk();
    assert!(matches!(scan.next_entry(), ChunkStep::Entry((ref k, _)) if k == b"b"));
    assert!(matches!(scan.next_entry(), ChunkStep::Entry((ref k, _)) if k == b"c"));
    assert!(matches!(scan.next_entry(), ChunkStep::NeedChunk));
    // Resuming reads from "c" on and passes over "c" itself.
    let plan = scan.begin_chunk().unwrap();
    assert!(matches!(plan.start, ChunkStart::From(ref k) if k == b"c"));
    assert!(scan.accept(plan.size, b"c", b"3"));
    assert!(scan.accept(plan.size, b"d", b"4"));
    scan.end_chunk();
    assert!(matches!(scan.next_entry(), ChunkStep::Entry((ref k, _)) if k == b"d"));
}

#[test]
fn lmdb_config_defaults_and_builders() {
    let c = LMDBConfig::new();
    assert_eq!(c.max_db_size, 1024 * 1024 * 1024);
    assert_eq!(c.max_dbs, 128);
    assert_eq!(c.max_readers, 126);
    assert!(c.use_writemap);
    assert!(c.sync_on_commit);
    assert!(!c.read_only);
    assert!(c.create_if_missing);
    let c = c
        .with_max_db_size(1)
        .with_max_dbs(2)
        .with_max_readers(3)
        .with_writemap(false)
        .with_sync_on_commit(false)
        .with_read_only(true)
        .with_create_if_missing(false);
    assert_eq!((c.max_db_size, c.max_dbs, c.max_readers), (1, 2, 3));
    assert!(!c.use_writemap && !c.sync_on_commit && c.read_only && !c.create_if_missing);
    let s = LMDBStorageConfig::new("/data".to_string(), c);
    assert_eq!(s.data_dir, "/data");
    assert_eq!(s.config, c);
}

#[test]
fn metrics_counters() {
    let mut m = LSMMetrics::new();
    assert!(m.creation_time() > 0);
    assert_eq!(m.last_write_time(), 0);
    m.record_read(10, Duration::from_nanos(100));
    m.record_read(10, Duration::from_nanos(300));
    assert_eq!(m.total_reads(), 2);
    assert_eq!(m.avg_read_latency(), Duration::from_nanos(200));
    assert!(m.last_read_time() > 0);
    m.record_flush(100, Duration::from_nanos(50));
    assert_eq!(m.total_flushes(), 1);
    assert_eq!(m.avg_flush_duration(), Duration::from_nanos(50));
    m.record_compaction(1, 2, Duration::from_nanos(5));
    assert_eq!(m.total_compactions(), 1);
    assert_eq!(m.bytes_compacted_out, 2);
    m.record_bloom_filter_check(BloomFilterResult::TruePositive);
    m.record_bloom_filter_check(BloomFilterResult::FalsePositive);
    m.record_bloom_filter_check(BloomFilterResult::TrueNegative);
    assert_eq!(m.bloom_filter_checks, 3);
    assert_eq!(m.bloom_filter_false_positives, 1);
    m.record_block_cache_access(true);
    m.record_block_cache_access(false);
    assert_eq!((m.block_cache_hits, m.block_cache_misses), (1, 1));
    m.record_sstable_read(true);
    m.record_sstable_read(false);
    assert_eq!((m.sstable_reads, m.sstable_hits), (2, 1));
    m.record_sstable_reads_for_get(3);
    assert_eq!(m.total_sstable_reads_for_gets, 3);
    m.record_memtable_hit();
    m.set_memtable_size(99);
    assert_eq!((m.memtable_hits, m.memtable_size), (1, 99));
    assert_eq!(m.avg_write_latency(), Duration::from_nanos(0));
}

#[test]
fn metrics_levels_and_watermark() {
    let mut m = LSMMetrics::created_at(100);
    m.set_level_size(0, 500);
    m.set_level_size(1, 1000);
    m.set_level_size(2, 2000);
    m.set_level_size(7, 9);
    assert_eq!(m.get_level_size(7), 0);
    assert_eq!(m.total_level_size(), 3500);
    m.set_level_file_count(9, 1);
    assert_eq!(m.get_level_file_count(9), 0);
    assert_eq!(m.min_active_snapshot_seq(), i64::MAX);
    m.set_min_active_snapshot_seq(42);
    m.set_active_transactions(2);
    assert_eq!(m.min_active_snapshot_seq(), 42);
    assert_eq!(m.active_transactions(), 2);
    assert_eq!(m.uptime_at(150), 50);
    assert_eq!(m.uptime_at(50), 0);
    assert!(m.uptime_seconds() > 0);
}

fn kv_pairs(items: &[(&str, &str)]) -> Vec<(Vec<u8>, Vec<u8>)> {
    items.iter().map(|(k, v)| (k.as_bytes().to_vec(), v.as_bytes().to_vec())).collect()
}

#[test]
fn transaction_scan_overlays_buffered_writes() {
    let mut tx = TransactionState::new(1, 100);
    tx.put(1, b"b", b"B2").unwrap();
    tx.delete(1, b"c", true).unwrap();
    tx.put(1, b"e", b"E").unwrap();
    tx.put(1, b"a", b"A1").unwrap();
    tx.put(1, b"a", b"A2").unwrap();
    tx.put(2, b"d", b"other shard").unwrap();
    let base = kv_pairs(&[("a", "A"), ("b", "B"), ("c", "C"), ("d", "D")]);
    let out = transaction_scan(&tx, 1, base.clone(), &KeyRange::all()).unwrap();
    assert_eq!(out, kv_pairs(&[("a", "A2"), ("b", "B2"), ("d", "D"), ("e", "E")]));

    let range = KeyRange::all().reversed().with_limit(2);
    let out = transaction_scan(&tx, 1, base.clone(), &range).unwrap();
    assert_eq!(out, kv_pairs(&[("e", "E"), ("d", "D")]));

    let bounded = KeyRange::from_to(b"a".to_vec(), b"d".to_vec());
    let out = transaction_scan(&tx, 1, kv_pairs(&[("a", "A"), ("b", "B"), ("c", "C")]), &bounded).unwrap();
    assert_eq!(out, kv_pairs(&[("a", "A2"), ("b", "B2")]));
}

#[test]
fn transaction_scan_of_untouched_shard_keeps_store_order() {
    let mut tx = TransactionState::new(1, 100);
    tx.put(1, b"x", b"X").unwrap();
    let base = kv_pairs(&[("q", "Q"), ("p", "P")]);
    let out = transaction_scan(&tx, 7, base.clone(), &KeyRange::all()).unwrap();
    assert_eq!(out, base);
    let out = transaction_scan(&tx, 7, base, &KeyRange::all().reversed()).unwrap();
    assert_eq!(out, kv_pairs(&[("p", "P"), ("q", "Q")]));
}

#[test]
fn transaction_scan_after_commit_conflicts() {
    let mut tx = TransactionState::new(1, 100);
    tx.commit().unwrap();
    assert!(matches!(transaction_scan(&tx, 1, Vec::new(), &KeyRange::all()), Err(KeyValueError::WriteConflict)));
}

fn listing(cache: &MetadataCache, prefix: Option<&str>) -> Vec<(String, ObjectType)> {
    cache.list_objects(prefix)
}

#[test]
fn test_resolver() {
    let mut cache = MetadataCache::new();
    let ns1 = cache.add_namespace("", NamespaceConfig::new("ns1".to_string())).unwrap();
    cache.add_namespace("ns1", NamespaceConfig::new("ns2".to_string())).unwrap();
    let lsm = || StorageEngineType::new("lsm".to_string());
    cache.add_table("ns1.ns2", TableConfig::new("table1".to_string(), lsm())).unwrap();
    cache.add_table("ns1.ns2", TableConfig::new("table2".to_string(), lsm())).unwrap();
    let t3 = cache.add_table("ns1", TableConfig::new("table3".to_string(), lsm())).unwrap();
    assert_eq!(cache.get_path_reference("ns1"), Some((ns1, ObjectType::Namespace)));
    assert_eq!(cache.get_namespace_metadata(ns1).unwrap().path, "ns1");
    let m3 = cache.get_table_metadata(t3).unwrap();
    assert_eq!(m3.path, "ns1.table3");
    assert_eq!(m3.name, "table3");
    assert_eq!((m3.shard_count, m3.replication_factor), (1, 1));
    assert!(cache.get_table_metadata(ns1).is_none());

    let all: Vec<String> = listing(&cache, None).into_iter().map(|p| p.0).collect();
    assert_eq!(all, vec!["ns1", "ns1.ns2", "ns1.ns2.table1", "ns1.ns2.table2", "ns1.table3"]);
    let under: Vec<String> = listing(&cache, Some("ns1.ns2")).into_iter().map(|p| p.0).collect();
    assert_eq!(under, vec!["ns1.ns2", "ns1.ns2.table1", "ns1.ns2.table2"]);

    let t1 = cache.get_path_reference("ns1.ns2.table1").unwrap();
    cache.move_object("ns1.ns2.table1", "ns1.table1").unwrap();
    assert_eq!(cache.get_path_reference("ns1.table1"), Some(t1));
    assert_eq!(cache.get_path_reference("ns1.ns2.table1"), None);

    cache.remove("ns1.table1").unwrap();
    let all: Vec<(String, ObjectType)> = listing(&cache, None);
    let names: Vec<&str> = all.iter().map(|p| p.0.as_str()).collect();
    assert_eq!(names, vec!["ns1", "ns1.ns2", "ns1.ns2.table2", "ns1.table3"]);
    assert_eq!(all[2].1, ObjectType::Table);
}

#[test]
fn resolver_adds_missing_namespaces_and_moves_subtrees() {
    let mut cache = MetadataCache::new();
    let t = cache.add_path("a.b.c", ObjectType::Table).unwrap();
    assert_eq!(t, 2);
    assert_eq!(cache.get_path_reference("a"), Some((0, ObjectType::Namespace)));
    assert_eq!(cache.get_path_reference("a.b"), Some((1, ObjectType::Namespace)));
    assert_eq!(cache.get_path_reference("a.b.c"), Some((2, ObjectType::Table)));
    cache.move_object("a.b", "x").unwrap();
    assert_eq!(cache.get_path_reference("x"), Some((1, ObjectType::Namespace)));
    assert_eq!(cache.get_path_reference("x.c"), Some((2, ObjectType::Table)));
    assert_eq!(cache.get_path_reference("a.b.c"), None);
    assert_eq!(cache.get_path_reference("a"), Some((0, ObjectType::Namespace)));
}

#[test]
fn resolver_refusals() {
    let mut cache = MetadataCache::new();
    cache.add_path("ns1.t", ObjectType::Table).unwrap();
    assert_eq!(cache.add_path("ns1", ObjectType::Namespace), Err("Path already exists: ns1".to_string()));
    assert_eq!(cache.add_path("..", ObjectType::Namespace), Err("Empty path".to_string()));
    assert_eq!(cache.remove("nope"), Err("Path not found: nope".to_string()));
    assert_eq!(cache.remove("ns1"), Err("Cannot remove node with children: ns1".to_string()));
    assert_eq!(cache.move_object("nope", "x"), Err("Source path not found: nope".to_string()));
    assert_eq!(cache.move_object("ns1.t", "."), Err("Empty destination path".to_string()));
    assert_eq!(cache.move_object("ns1.t", "zz.t"), Err("Parent path not found: zz".to_string()));
    assert_eq!(cache.move_object("ns1.t", "ns1"), Err("Destination path already exists: ns1".to_string()));
    assert!(cache.get_path_reference("ns1.t").is_some());
}

#[test]
fn engine_type_shorthands_name_their_engines() {
    assert_eq!(StorageEngineType::lsm().as_str(), "lsm");
    assert_eq!(StorageEngineType::btree().as_str(), "btree");
    assert_eq!(StorageEngineType::art().as_str(), "art");
}
