use nanograph_storage::kvt::types::{KeyBound, KeyRange};
use nanograph_storage::lsm::engine::{keys_in_order, EngineState};
use nanograph_storage::lsm::sstable::SSTable;
use nanograph_storage::lsm::table::search_tables;
use nanograph_storage::lsm::wal_record::{encode_delete, encode_put};
use std::collections::HashMap;

/// A shard driven the way the engine drives it: every write logged first,
/// lookups falling through the memtables to the table files, flushes writing
/// the frozen memtable out as a table file.
struct Shard {
    state: EngineState,
    limit: usize,
    log: Vec<(u16, Vec<u8>)>,
    files: HashMap<u64, Vec<u8>>,
}

impl Shard {
    fn new() -> Self {
        let limit = 64 * 1024 * 1024;
        Shard { state: EngineState::new(limit), limit, log: Vec::new(), files: HashMap::new() }
    }

    fn set(&mut self, key: Vec<u8>, value: Vec<u8>) {
        self.log.push((1, encode_put(&key, &value)));
        if self.state.put(key, value) {
            self.flush();
        }
    }

    fn remove(&mut self, key: Vec<u8>) {
        self.log.push((2, encode_delete(&key)));
        if self.state.delete(key) {
            self.flush();
        }
    }

    fn read(&mut self, key: &[u8]) -> Option<Vec<u8>> {
        if let Some(e) = self.state.lookup(key) {
            return e.value_as_vec();
        }
        let files: Vec<Vec<u8>> =
            self.state.sstable_candidates(key).iter().map(|n| self.files[n].clone()).collect();
        search_tables(&files, key).and_then(|e| e.value_as_vec())
    }

    fn flush(&mut self) {
        self.state.begin_flush();
        if let Some(t) = self.state.flush_table(4096) {
            self.files.insert(t.file_number, t.bytes);
            self.state.add_flushed_table(t.metadata);
        }
        self.state.end_flush();
    }

    fn scan(&self, range: &KeyRange) -> Vec<(Vec<u8>, Vec<u8>)> {
        let manifest = self.state.manifest_entries();
        let mut numbers: Vec<u64> =
            manifest.iter().filter(|m| m.level == 0).map(|m| m.file_number).rev().collect();
        numbers.extend(manifest.iter().filter(|m| m.level > 0).map(|m| m.file_number));
        let tables: Vec<_> = numbers
            .iter()
            .map(|n| SSTable::iter(&self.files[n]).unwrap().collect_entries().unwrap())
            .collect();
        assert!(tables.iter().all(keys_in_order));
        let mut it = self.state.scan(range, &tables);
        let mut out = Vec::new();
        while let Some(p) = it.next() {
            out.push(p.unwrap());
        }
        out
    }

    fn recover(&mut self) {
        let mut state = EngineState::new(self.limit);
        for (kind, payload) in &self.log {
            state.replay_record(*kind, payload);
        }
        self.state = state;
    }
}

#[test]
fn test_engine_basic_operations() {
    let mut engine = Shard::new();
    engine.set(b"key1".to_vec(), b"value1".to_vec());
    assert_eq!(engine.read(b"key1"), Some(b"value1".to_vec()));
    engine.set(b"key1".to_vec(), b"value2".to_vec());
    assert_eq!(engine.read(b"key1"), Some(b"value2".to_vec()));
    engine.remove(b"key1".to_vec());
    assert_eq!(engine.read(b"key1"), None);
}

#[test]
fn test_engine_stats() {
    let mut engine = Shard::new();
    engine.set(b"key1".to_vec(), b"value1".to_vec());
    engine.set(b"key2".to_vec(), b"value2".to_vec());
    engine.read(b"key1");
    let stats = engine.state.stats();
    assert_eq!(stats.total_writes, 2);
    assert_eq!(stats.total_reads, 1);
    assert!(stats.memtable_size > 0);
}

#[test]
fn integration_tests_test_basic_put_get() {
    let mut engine = Shard::new();
    engine.set(b"key1".to_vec(), b"value1".to_vec());
    assert_eq!(engine.read(b"key1"), Some(b"value1".to_vec()));
}

#[test]
fn integration_tests_test_put_update() {
    let mut engine = Shard::new();
    engine.set(b"key1".to_vec(), b"value1".to_vec());
    engine.set(b"key1".to_vec(), b"value2".to_vec());
    assert_eq!(engine.read(b"key1"), Some(b"value2".to_vec()));
}

#[test]
fn integration_tests_test_delete() {
    let mut engine = Shard::new();
    engine.set(b"key1".to_vec(), b"value1".to_vec());
    assert!(engine.read(b"key1").is_some());
    engine.remove(b"key1".to_vec());
    assert!(engine.read(b"key1").is_none());
}

#[test]
fn test_multiple_keys() {
    let mut engine = Shard::new();
    for i in 0..100 {
        engine.set(format!("key{:03}", i).into_bytes(), format!("value{:03}", i).into_bytes());
    }
    for i in 0..100 {
        let key = format!("key{:03}", i);
        assert_eq!(engine.read(key.as_bytes()), Some(format!("value{:03}", i).into_bytes()));
    }
}

#[test]
fn test_nonexistent_key() {
    let mut engine = Shard::new();
    assert_eq!(engine.read(b"nonexistent"), None);
}

#[test]
fn test_memtable_flush() {
    let mut engine = Shard::new();
    let large_value = vec![b'x'; 1024];
    for i in 0..100 {
        engine.set(format!("key{:03}", i).into_bytes(), large_value.clone());
    }
    engine.flush();
    assert_eq!(engine.files.len(), 1);
    for i in 0..100 {
        let key = format!("key{:03}", i);
        assert_eq!(engine.read(key.as_bytes()), Some(large_value.clone()));
    }
}

#[test]
fn test_wal_recovery() {
    let mut engine = Shard::new();
    engine.set(b"key1".to_vec(), b"value1".to_vec());
    engine.set(b"key2".to_vec(), b"value2".to_vec());
    engine.remove(b"key3".to_vec());
    engine.recover();
    assert_eq!(engine.read(b"key1"), Some(b"value1".to_vec()));
    assert_eq!(engine.read(b"key2"), Some(b"value2".to_vec()));
    assert_eq!(engine.read(b"key3"), None);
}

#[test]
fn integration_tests_test_large_values() {
    let mut engine = Shard::new();
    let large_value = vec![b'x'; 1024 * 1024];
    engine.set(b"large_key".to_vec(), large_value.clone());
    assert_eq!(engine.read(b"large_key"), Some(large_value));
}

#[test]
fn test_empty_key_value() {
    let mut engine = Shard::new();
    engine.set(b"".to_vec(), b"value".to_vec());
    assert_eq!(engine.read(b""), Some(b"value".to_vec()));
    engine.set(b"key".to_vec(), b"".to_vec());
    assert_eq!(engine.read(b"key"), Some(b"".to_vec()));
}

#[test]
fn test_stats() {
    let mut engine = Shard::new();
    for i in 0..10 {
        engine.set(format!("key{}", i).into_bytes(), format!("value{}", i).into_bytes());
    }
    for i in 0..5 {
        engine.read(format!("key{}", i).as_bytes());
    }
    let stats = engine.state.stats();
    assert_eq!(stats.total_writes, 10);
    assert_eq!(stats.total_reads, 5);
    assert!(stats.memtable_size > 0);
}

#[test]
fn test_sequential_writes() {
    let mut engine = Shard::new();
    for i in 0..1000 {
        engine.set(format!("{:010}", i).into_bytes(), format!("value{}", i).into_bytes());
    }
    for i in 0..1000 {
        let key = format!("{:010}", i);
        assert_eq!(engine.read(key.as_bytes()), Some(format!("value{}", i).into_bytes()));
    }
}

#[test]
fn test_random_access() {
    let mut engine = Shard::new();
    for i in 0..100 {
        engine.set(format!("key{}", i).into_bytes(), format!("value{}", i).into_bytes());
    }
    for i in [50, 10, 90, 5, 75, 25, 95, 15] {
        let key = format!("key{}", i);
        assert_eq!(engine.read(key.as_bytes()), Some(format!("value{}", i).into_bytes()));
    }
}

#[test]
fn test_overwrite_pattern() {
    let mut engine = Shard::new();
    for i in 0..50 {
        engine.set(format!("key{}", i).into_bytes(), format!("value{}_v1", i).into_bytes());
    }
    for i in 0..50 {
        engine.set(format!("key{}", i).into_bytes(), format!("value{}_v2", i).into_bytes());
    }
    for i in 0..50 {
        let key = format!("key{}", i);
        assert_eq!(engine.read(key.as_bytes()), Some(format!("value{}_v2", i).into_bytes()));
    }
}

#[test]
fn test_delete_nonexistent() {
    let mut engine = Shard::new();
    engine.remove(b"nonexistent".to_vec());
    assert_eq!(engine.read(b"nonexistent"), None);
}

#[test]
fn test_mixed_operations() {
    let mut engine = Shard::new();
    engine.set(b"key1".to_vec(), b"value1".to_vec());
    assert_eq!(engine.read(b"key1"), Some(b"value1".to_vec()));
    engine.set(b"key2".to_vec(), b"value2".to_vec());
    engine.remove(b"key1".to_vec());
    assert_eq!(engine.read(b"key1"), None);
    assert_eq!(engine.read(b"key2"), Some(b"value2".to_vec()));
    engine.set(b"key1".to_vec(), b"value1_new".to_vec());
    assert_eq!(engine.read(b"key1"), Some(b"value1_new".to_vec()));
}

#[test]
fn reads_fall_through_to_flushed_tables_newest_first() {
    let mut engine = Shard::new();
    engine.set(b"a".to_vec(), b"old".to_vec());
    engine.set(b"b".to_vec(), b"kept".to_vec());
    engine.flush();
    engine.set(b"a".to_vec(), b"new".to_vec());
    engine.remove(b"b".to_vec());
    engine.flush();
    assert_eq!(engine.files.len(), 2);
    assert_eq!(engine.read(b"a"), Some(b"new".to_vec()));
    assert_eq!(engine.read(b"b"), None);
    assert_eq!(engine.read(b"c"), None);
}

#[test]
fn scans_see_flushed_keys_with_the_newest_entry_winning() {
    let mut engine = Shard::new();
    for i in 0..10 {
        engine.set(format!("key{:02}", i).into_bytes(), b"old".to_vec());
    }
    engine.flush();
    engine.set(b"key04".to_vec(), b"new".to_vec());
    engine.remove(b"key05".to_vec());
    let range = KeyRange::new(KeyBound::Included(b"key03".to_vec()), KeyBound::Included(b"key07".to_vec()));
    let pairs = engine.scan(&range);
    let keys: Vec<Vec<u8>> = pairs.iter().map(|p| p.0.clone()).collect();
    assert_eq!(keys, vec![b"key03".to_vec(), b"key04".to_vec(), b"key06".to_vec(), b"key07".to_vec()]);
    assert_eq!(pairs[1].1, b"new".to_vec());
    assert_eq!(pairs[0].1, b"old".to_vec());
}

#[test]
fn scan_of_ten_flushed_keys_yields_the_range() {
    let mut engine = Shard::new();
    for i in 0..10 {
        engine.set(format!("key{:02}", i).into_bytes(), format!("v{}", i).into_bytes());
    }
    engine.flush();
    let range = KeyRange::new(KeyBound::Included(b"key03".to_vec()), KeyBound::Included(b"key07".to_vec()));
    let pairs = engine.scan(&range);
    assert_eq!(pairs.len(), 5);
    assert_eq!(pairs[0].0, b"key03".to_vec());
    assert_eq!(pairs[4].0, b"key07".to_vec());
}
