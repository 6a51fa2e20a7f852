//! The manifest: the list of an LSM tree's SSTables, level after level, from which
//! the tree is restored when an engine opens.
use vstd::prelude::*;
use crate::lsm::level::Level;
use crate::lsm::sstable::{SSTableMetadata, SSTableMetadataView};

verus! {

/// One SSTable as the manifest records it.
#[derive(Debug, Clone)]
pub struct ManifestEntry {
    pub file_number: u64,
    pub level: usize,
    pub metadata: SSTableMetadata,
}

/// Mathematical value of a [`ManifestEntry`].
pub struct ManifestEntryView {
    pub file_number: u64,
    pub level: usize,
    pub metadata: SSTableMetadataView,
}

impl View for ManifestEntry {
    type V = ManifestEntryView;

    open spec fn view(&self) -> ManifestEntryView {
        ManifestEntryView { file_number: self.file_number, level: self.level, metadata: self.metadata@ }
    }
}

/// Views of a list of manifest entries.
pub open spec fn manifest_views(v: Seq<ManifestEntry>) -> Seq<ManifestEntryView> {
    v.map_values(|e: ManifestEntry| e@)
}

/// The manifest entries of the tables of level `number`, in order.
pub open spec fn level_manifest(number: usize, tables: Seq<SSTableMetadataView>) -> Seq<ManifestEntryView> {
    tables.map_values(|t: SSTableMetadataView| ManifestEntryView { file_number: t.file_number, level: number, metadata: t })
}

/// The manifest of the first `n` levels: each level's entries, level after level.
pub open spec fn tree_manifest(levels: Seq<Level>, n: int) -> Seq<ManifestEntryView>
    decreases n,
{
    if n <= 0 {
        Seq::empty()
    } else {
        tree_manifest(levels, n - 1) + level_manifest(levels[n - 1].number(), levels[n - 1].tables())
    }
}

/// The tables that restoring the manifest `es` adds to level `level`, in order.
pub open spec fn level_entries(es: Seq<ManifestEntryView>, level: int) -> Seq<SSTableMetadataView>
    decreases es.len(),
{
    if es.len() == 0 {
        Seq::empty()
    } else if es.last().level == level {
        level_entries(es.drop_last(), level).push(es.last().metadata)
    } else {
        level_entries(es.drop_last(), level)
    }
}

/// The next file number after restoring the manifest `es` over `levels` levels,
/// starting from `c`: one past each recorded file number that reaches it.
pub open spec fn restored_counter(c: u64, es: Seq<ManifestEntryView>, levels: int) -> u64
    decreases es.len(),
{
    if es.len() == 0 {
        c
    } else {
        let before = restored_counter(c, es.drop_last(), levels);
        let e = es.last();
        if e.level < levels && e.file_number >= before {
            (e.file_number + 1) as u64
        } else {
            before
        }
    }
}

pub proof fn lemma_level_entries_concat(a: Seq<ManifestEntryView>, b: Seq<ManifestEntryView>, level: int)
    ensures
        level_entries(a + b, level) == level_entries(a, level) + level_entries(b, level),
    decreases b.len(),
{
    if b.len() == 0 {
        assert(a + b =~= a);
        assert(level_entries(a, level) + Seq::<SSTableMetadataView>::empty() =~= level_entries(a, level));
    } else {
        lemma_level_entries_concat(a, b.drop_last(), level);
        assert((a + b).drop_last() =~= a + b.drop_last());
        assert((a + b).last() == b.last());
        if b.last().level == level {
            assert(level_entries(a, level) + level_entries(b.drop_last(), level).push(b.last().metadata)
                =~= (level_entries(a, level) + level_entries(b.drop_last(), level)).push(b.last().metadata));
        }
    }
}

/// The first `i` entries of a list, taken one more at a time, add what the next entry adds.
pub proof fn lemma_level_entries_take(es: Seq<ManifestEntryView>, i: int, level: int)
    requires
        0 <= i < es.len(),
    ensures
        level_entries(es.take(i + 1), level) == if es[i].level == level {
            level_entries(es.take(i), level).push(es[i].metadata)
        } else {
            level_entries(es.take(i), level)
        },
{
    assert(es.take(i + 1).drop_last() =~= es.take(i));
    assert(es.take(i + 1).last() == es[i]);
}

/// A level's manifest restores exactly its tables to its own level and nothing elsewhere.
proof fn lemma_level_manifest_entries(number: usize, tables: Seq<SSTableMetadataView>, level: int)
    ensures
        level_entries(level_manifest(number, tables), level) == if number == level {
            tables
        } else {
            Seq::empty()
        },
    decreases tables.len(),
{
    if tables.len() > 0 {
        lemma_level_manifest_entries(number, tables.drop_last(), level);
        assert(level_manifest(number, tables).drop_last() =~= level_manifest(number, tables.drop_last()));
        assert(tables.drop_last().push(tables.last()) =~= tables);
    } else {
        assert(level_manifest(number, tables) =~= Seq::<ManifestEntryView>::empty());
    }
}

/// Restoring the manifest of the first `n` levels of a tree whose levels are numbered
/// by position gives each of those levels back its tables, and no others.
proof fn lemma_tree_manifest_entries(levels: Seq<Level>, n: int, level: int)
    requires
        0 <= n <= levels.len(),
        forall|i: int| 0 <= i < levels.len() ==> (#[trigger] levels[i]).number() == i,
    ensures
        level_entries(tree_manifest(levels, n), level) == if 0 <= level < n {
            levels[level].tables()
        } else {
            Seq::empty()
        },
    decreases n,
{
    if n > 0 {
        lemma_tree_manifest_entries(levels, n - 1, level);
        lemma_level_entries_concat(
            tree_manifest(levels, n - 1),
            level_manifest(levels[n - 1].number(), levels[n - 1].tables()),
            level,
        );
        lemma_level_manifest_entries(levels[n - 1].number(), levels[n - 1].tables(), level);
        assert(Seq::<SSTableMetadataView>::empty() + levels[level].tables() =~= levels[level].tables());
        assert(levels[level].tables() + Seq::<SSTableMetadataView>::empty() =~= levels[level].tables());
        assert(Seq::<SSTableMetadataView>::empty() + Seq::<SSTableMetadataView>::empty() =~= Seq::<SSTableMetadataView>::empty());
    } else {
        assert(tree_manifest(levels, 0) =~= Seq::<ManifestEntryView>::empty());
    }
}

/// Saving a tree's manifest and restoring it gives every level its tables back, in
/// their order.
pub proof fn lemma_manifest_roundtrip(levels: Seq<Level>)
    requires
        forall|i: int| 0 <= i < levels.len() ==> (#[trigger] levels[i]).number() == i,
    ensures
        forall|i: int| 0 <= i < levels.len() ==> level_entries(tree_manifest(levels, levels.len() as int), i)
            == (#[trigger] levels[i]).tables(),
{
    assert forall|i: int| 0 <= i < levels.len() implies level_entries(tree_manifest(levels, levels.len() as int), i)
        == (#[trigger] levels[i]).tables() by {
        lemma_tree_manifest_entries(levels, levels.len() as int, i);
    }
}

} // verus!
