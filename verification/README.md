# nanograph_storage

The storage core of the nanograph key-value engines, written in Verus: every
function under `src/` carries a contract that the verifier proves.

- `src/kvt/` — shared key-value types: key ranges and partitioners, table and
  namespace configuration, transaction identifiers and timestamps, errors, an
  in-memory iterator, and the metadata cache's resolver of dot-separated
  object paths.
- `src/lsm/` — the log-structured merge tree: memtable, write-ahead-log
  records, data-block, index, bloom-filter and footer formats, whole SSTable
  files (`table`), the engine's in-memory state and recovery decisions,
  levels, compaction choice and execution, block cache, blob log accounting,
  transactions and metrics.
- `src/lmdb/` — configuration, chunked scanning and transactional scans of the
  LMDB-backed store.
- `src/keyorder.rs`, `src/codec.rs`, `src/integrity.rs`, `src/text.rs` — byte
  order of keys, little-endian codecs, CRC-32C and number formatting.

Laws that relate several functions (what decoding gives back of encoding, what
a table file gives back of the entries written to it, what compaction keeps,
what restoring a manifest gives back, what a transaction reads of its own
writes) are public proof functions next to the code they speak of.

`app/` holds what the verifier does not see: I/O around blob files, error types
with `thiserror`, serde forms of configuration, streams, engine statistics, and
the floating-point rates of metrics and caches. `tests/` exercises the library on concrete values.
