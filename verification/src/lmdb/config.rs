//! Settings of the LMDB storage engine.
use vstd::prelude::*;

verus! {

/// Settings of an LMDB environment.
#[derive(Debug, Clone, Copy, PartialEq, Eq, Structural)]
pub struct LMDBConfig {
    /// Largest size of the database in bytes.
    pub max_db_size: usize,
    /// Largest number of named databases (shards).
    pub max_dbs: u32,
    /// Largest number of concurrent readers.
    pub max_readers: u32,
    /// Map the database writable into memory.
    pub use_writemap: bool,
    /// Flush to disk on each commit.
    pub sync_on_commit: bool,
    /// Open the environment read-only.
    pub read_only: bool,
    /// Create the database when it does not exist.
    pub create_if_missing: bool,
}

impl LMDBConfig {
    /// The default settings: a 1 GiB map, 128 databases, 126 readers, a
    /// writable map, sync on commit, writable, created when missing.
    pub open spec fn defaults() -> LMDBConfig {
        LMDBConfig {
            max_db_size: 0x4000_0000,
            max_dbs: 128,
            max_readers: 126,
            use_writemap: true,
            sync_on_commit: true,
            read_only: false,
            create_if_missing: true,
        }
    }

    /// The default settings.
    pub fn new() -> (r: Self)
        ensures
            r == Self::defaults(),
    {
        Self::default()
    }

    /// The same settings with a map of `size` bytes.
    pub fn with_max_db_size(self, size: usize) -> (r: Self)
        ensures
            r == (LMDBConfig { max_db_size: size, ..self }),
    {
        LMDBConfig { max_db_size: size, ..self }
    }

    /// The same settings with room for `max_dbs` databases.
    pub fn with_max_dbs(self, max_dbs: u32) -> (r: Self)
        ensures
            r == (LMDBConfig { max_dbs, ..self }),
    {
        LMDBConfig { max_dbs, ..self }
    }

    /// The same settings with room for `max_readers` readers.
    pub fn with_max_readers(self, max_readers: u32) -> (r: Self)
        ensures
            r == (LMDBConfig { max_readers, ..self }),
    {
        LMDBConfig { max_readers, ..self }
    }

    /// The same settings with the writable map switched on or off.
    pub fn with_writemap(self, use_writemap: bool) -> (r: Self)
        ensures
            r == (LMDBConfig { use_writemap, ..self }),
    {
        LMDBConfig { use_writemap, ..self }
    }

    /// The same settings with sync on commit switched on or off.
    pub fn with_sync_on_commit(self, sync: bool) -> (r: Self)
        ensures
            r == (LMDBConfig { sync_on_commit: sync, ..self }),
    {
        LMDBConfig { sync_on_commit: sync, ..self }
    }

    /// The same settings, read-only or not.
    pub fn with_read_only(self, read_only: bool) -> (r: Self)
        ensures
            r == (LMDBConfig { read_only, ..self }),
    {
        LMDBConfig { read_only, ..self }
    }

    /// The same settings, creating a missing database or not.
    pub fn with_create_if_missing(self, create: bool) -> (r: Self)
        ensures
            r == (LMDBConfig { create_if_missing: create, ..self }),
    {
        LMDBConfig { create_if_missing: create, ..self }
    }
}

impl Default for LMDBConfig {
    fn default() -> (r: Self)
        ensures
            r == Self::defaults(),
    {
        LMDBConfig {
            max_db_size: 0x4000_0000,
            max_dbs: 128,
            max_readers: 126,
            use_writemap: true,
            sync_on_commit: true,
            read_only: false,
            create_if_missing: true,
        }
    }
}

/// LMDB settings together with the directory of the database files.
#[derive(Debug, Clone)]
pub struct LMDBStorageConfig {
    pub data_dir: String,
    pub config: LMDBConfig,
}

impl LMDBStorageConfig {
    /// Settings `config` for the files under `data_dir`.
    pub fn new(data_dir: String, config: LMDBConfig) -> (r: Self)
        ensures
            r.data_dir@ == data_dir@,
            r.config == config,
    {
        LMDBStorageConfig { data_dir, config }
    }
}

} // verus!
