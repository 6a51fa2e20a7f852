//! Configuration of namespaces, tables and shards.
use vstd::prelude::*;
use crate::kvt::types::Partitioner;

verus! {

/// Configuration for creating a namespace.
pub struct NamespaceConfig {
    pub name: String,
}

impl NamespaceConfig {
    /// A namespace named `name`.
    pub fn new(name: String) -> (r: Self)
        ensures
            r.name@ == name@,
    {
        NamespaceConfig { name }
    }
}

/// Identifier of a storage engine implementation, by name, so that engines
/// can be added without changing this crate.
#[derive(Debug, Clone, PartialEq, Eq, Hash)]
pub struct StorageEngineType(pub String);

impl StorageEngineType {
    /// The engine type named `name`.
    pub fn new(name: String) -> (r: Self)
        ensures
            r.0@ == name@,
    {
        StorageEngineType(name)
    }

    /// The engine type's name.
    pub fn as_str(&self) -> (r: &str)
        ensures
            r@ == self.0@,
    {
        self.0.as_str()
    }

    /// The log-structured merge tree engine (write-optimized), `"lsm"`.
    pub fn lsm() -> (r: Self)
        ensures
            r.0@ == "lsm"@,
    {
        Self::lsm_type()
    }

    /// The B+tree engine (balanced reads and writes), `"btree"`.
    pub fn btree() -> (r: Self)
        ensures
            r.0@ == "btree"@,
    {
        Self::btree_type()
    }

    /// The adaptive radix tree engine (read-optimized, in memory), `"art"`.
    pub fn art() -> (r: Self)
        ensures
            r.0@ == "art"@,
    {
        Self::art_type()
    }

    /// The log-structured merge tree engine, `"lsm"`.
    pub fn lsm_type() -> (r: Self)
        ensures
            r.0@ == "lsm"@,
    {
        StorageEngineType("lsm".to_owned())
    }

    /// The B+tree engine, `"btree"`.
    pub fn btree_type() -> (r: Self)
        ensures
            r.0@ == "btree"@,
    {
        StorageEngineType("btree".to_owned())
    }

    /// The adaptive radix tree engine, `"art"`.
    pub fn art_type() -> (r: Self)
        ensures
            r.0@ == "art"@,
    {
        StorageEngineType("art".to_owned())
    }
}

/// How a table is spread over shards.
#[derive(Debug, Clone)]
pub enum TableSharding {
    /// One shard.
    Single,
    /// Several shards, each replicated.
    Multiple { shard_count: u32, partitioner: Partitioner, replication_factor: usize },
}

/// Status of a shard.
#[derive(Copy, Clone, Debug, Eq, PartialEq, Structural)]
pub enum ShardStatus {
    /// Serving requests.
    Active,
    /// Being rebalanced.
    Rebalancing,
    /// Being split into several shards.
    Splitting,
    /// Being merged with another shard.
    Merging,
    /// Without a quorum.
    Offline,
}

/// Configuration for creating a table.
#[derive(Debug, Clone)]
pub struct TableConfig {
    pub name: String,
    pub engine_type: StorageEngineType,
    pub sharding_config: TableSharding,
    /// Engine-specific options, each key at most once, in the order first set.
    pub options: Vec<(String, String)>,
}

/// The views of a list of options.
pub open spec fn option_views(o: Seq<(String, String)>) -> Seq<(Seq<char>, Seq<char>)> {
    o.map_values(|p: (String, String)| (p.0@, p.1@))
}

/// The options `o` after setting `key` to `value`: its value replaced where
/// the key is present, appended otherwise.
pub open spec fn set_option(o: Seq<(Seq<char>, Seq<char>)>, key: Seq<char>, value: Seq<char>) -> Seq<(Seq<char>, Seq<char>)> {
    if exists|i: int| 0 <= i < o.len() && #[trigger] o[i].0 == key {
        let i = choose|i: int| 0 <= i < o.len() && #[trigger] o[i].0 == key;
        o.update(i, (key, value))
    } else {
        o.push((key, value))
    }
}

/// No key occurs twice.
pub open spec fn keys_distinct(o: Seq<(Seq<char>, Seq<char>)>) -> bool {
    forall|i: int, j: int| 0 <= i < o.len() && 0 <= j < o.len() && i != j ==> #[trigger] o[i].0 != #[trigger] o[j].0
}

impl TableConfig {
    /// A single-shard table named `name` on `engine_type`, without options.
    pub fn new(name: String, engine_type: StorageEngineType) -> (r: Self)
        ensures
            r.name@ == name@,
            r.engine_type == engine_type,
            r.sharding_config is Single,
            r.options@.len() == 0,
    {
        TableConfig { name, engine_type, sharding_config: TableSharding::Single, options: Vec::new() }
    }

    /// The same configuration with option `key` set to `value`.
    pub fn with_option(self, key: String, value: String) -> (r: Self)
        requires
            keys_distinct(option_views(self.options@)),
        ensures
            r.name == self.name,
            r.engine_type == self.engine_type,
            r.sharding_config == self.sharding_config,
            option_views(r.options@) == set_option(option_views(self.options@), key@, value@),
            keys_distinct(option_views(r.options@)),
    {
        let TableConfig { name, engine_type, sharding_config, options } = self;
        let mut options = options;
        let ghost o = option_views(options@);
        let mut i: usize = 0;
        while i < options.len()
            invariant
                i <= options.len(),
                o == option_views(options@),
                keys_distinct(o),
                o == option_views(self.options@),
                name == self.name,
                engine_type == self.engine_type,
                sharding_config == self.sharding_config,
                forall|j: int| 0 <= j < i ==> o[j].0 != key@,
            decreases options.len() - i,
        {
            if options[i].0 == key {
                proof {
                    assert(o[i as int].0 == key@);
                    let c = choose|c: int| 0 <= c < o.len() && #[trigger] o[c].0 == key@;
                    if c != i as int {
                        assert(o[c].0 == o[i as int].0);
                    }
                }
                options.set(i, (key, value));
                assert(option_views(options@) =~= o.update(i as int, (key@, value@)));
                return TableConfig { name, engine_type, sharding_config, options };
            }
            i = i + 1;
        }
        options.push((key, value));
        assert(option_views(options@) =~= o.push((key@, value@)));
        TableConfig { name, engine_type, sharding_config, options }
    }

    /// The same configuration spread over `shard_count` shards placed by
    /// `partitioner`, each with `replication_factor` replicas.
    pub fn with_sharding(self, shard_count: u32, partitioner: Partitioner, replication_factor: usize) -> (r: Self)
        ensures
            r.name == self.name,
            r.engine_type == self.engine_type,
            r.options == self.options,
            r.sharding_config == (TableSharding::Multiple { shard_count, partitioner, replication_factor }),
    {
        TableConfig { sharding_config: TableSharding::Multiple { shard_count, partitioner, replication_factor }, ..self }
    }
}

} // verus!
