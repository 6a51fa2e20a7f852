//! The levels of an LSM tree: which SSTables each level holds and their total
//! size, when a level is due for compaction, and how a finished compaction
//! changes the levels.
use vstd::prelude::*;
use crate::lsm::compaction::{CompactionTask, ipow, level_bytes};
use crate::lsm::sstable::{SSTableMetadata, SSTableMetadataView, metadata_views};

verus! {

/// Number of files at which level 0 is due for compaction.
pub const LEVEL0_FILE_LIMIT: usize = 4;

/// Growth factor of the level capacities.
pub const LEVEL_GROWTH: u64 = 10;

/// `s` without its first table numbered `file_number`, if it has one.
pub open spec fn without_file(s: Seq<SSTableMetadataView>, file_number: u64) -> Seq<SSTableMetadataView> {
    match first_with_number(s, file_number) {
        Some(i) => s.remove(i),
        None => s,
    }
}

/// Whether `i` is the position of the first table numbered `file_number`.
pub open spec fn is_first_with_number(s: Seq<SSTableMetadataView>, file_number: u64, i: int) -> bool {
    &&& 0 <= i < s.len()
    &&& s[i].file_number == file_number
    &&& forall|j: int| 0 <= j < i ==> s[j].file_number != file_number
}

/// Position of the first table numbered `file_number`.
pub open spec fn first_with_number(s: Seq<SSTableMetadataView>, file_number: u64) -> Option<int> {
    if exists|i: int| #[trigger] is_first_with_number(s, file_number, i) {
        Some(choose|i: int| #[trigger] is_first_with_number(s, file_number, i))
    } else {
        None
    }
}

/// `s` after removing, in turn, a table numbered as each of `gone`.
pub open spec fn without_files(s: Seq<SSTableMetadataView>, gone: Seq<SSTableMetadataView>) -> Seq<SSTableMetadataView>
    decreases gone.len(),
{
    if gone.len() == 0 {
        s
    } else {
        without_file(without_files(s, gone.drop_last()), gone.last().file_number)
    }
}

/// Total size of a concatenation.
pub proof fn lemma_level_bytes_concat(a: Seq<SSTableMetadataView>, b: Seq<SSTableMetadataView>)
    ensures
        level_bytes(a + b) == level_bytes(a) + level_bytes(b),
    decreases b.len(),
{
    if b.len() == 0 {
        assert(a + b =~= a);
    } else {
        lemma_level_bytes_concat(a, b.drop_last());
        assert((a + b).drop_last() =~= a + b.drop_last());
    }
}

/// Sizes are never negative.
pub proof fn lemma_level_bytes_nonneg(s: Seq<SSTableMetadataView>)
    ensures
        level_bytes(s) >= 0,
    decreases s.len(),
{
    if s.len() > 0 {
        lemma_level_bytes_nonneg(s.drop_last());
    }
}

/// Removing a table takes its size off the total.
pub proof fn lemma_level_bytes_remove(s: Seq<SSTableMetadataView>, i: int)
    requires
        0 <= i < s.len(),
    ensures
        level_bytes(s.remove(i)) == level_bytes(s) - s[i].file_size,
{
    let a = s.subrange(0, i);
    let b = s.subrange(i + 1, s.len() as int);
    let x = seq![s[i]];
    assert(s =~= (a + x) + b);
    assert(s.remove(i) =~= a + b);
    lemma_level_bytes_concat(a + x, b);
    lemma_level_bytes_concat(a, x);
    lemma_level_bytes_concat(a, b);
    assert(x.drop_last() =~= Seq::<SSTableMetadataView>::empty());
    assert(level_bytes(x) == level_bytes(x.drop_last()) + x.last().file_size);
}

/// Removing a table never increases the total size.
pub proof fn lemma_without_file_bytes(s: Seq<SSTableMetadataView>, n: u64)
    ensures
        level_bytes(without_file(s, n)) <= level_bytes(s),
{
    match first_with_number(s, n) {
        Some(i) => {
            lemma_level_bytes_remove(s, i);
        },
        None => {},
    }
}

/// Removing tables never increases the total size.
pub proof fn lemma_without_files_bytes(s: Seq<SSTableMetadataView>, gone: Seq<SSTableMetadataView>)
    ensures
        level_bytes(without_files(s, gone)) <= level_bytes(s),
    decreases gone.len(),
{
    if gone.len() > 0 {
        lemma_without_files_bytes(s, gone.drop_last());
        lemma_without_file_bytes(without_files(s, gone.drop_last()), gone.last().file_number);
    }
}

/// Removing a table just added, whose number no other table of the level
/// has, gives back the level's tables.
pub proof fn lemma_add_then_remove(s: Seq<SSTableMetadataView>, m: SSTableMetadataView)
    requires
        forall|i: int| 0 <= i < s.len() ==> #[trigger] s[i].file_number != m.file_number,
    ensures
        without_file(s.push(m), m.file_number) == s,
{
    let t = s.push(m);
    assert(is_first_with_number(t, m.file_number, s.len() as int));
    let k = choose|k: int| #[trigger] is_first_with_number(t, m.file_number, k);
    assert(is_first_with_number(t, m.file_number, k));
    if k < s.len() {
        assert(t[k] == s[k]);
    }
    assert(k == s.len());
    assert(t.remove(s.len() as int) =~= s);
}

/// One level of the tree.
pub struct Level {
    level_number: usize,
    sstables: Vec<SSTableMetadata>,
    total_size: u64,
}

/// Summary of a level.
#[derive(Debug, Clone, Copy, PartialEq, Eq, Structural)]
pub struct LevelStats {
    pub level: usize,
    pub num_sstables: usize,
    pub total_size: u64,
}

impl Level {
    /// The level's tables, in the order they were added.
    pub closed spec fn tables(&self) -> Seq<SSTableMetadataView> {
        metadata_views(self.sstables@)
    }

    /// The level's number.
    pub closed spec fn number(&self) -> usize {
        self.level_number
    }

    /// The level's total size in bytes.
    pub open spec fn size(&self) -> int {
        level_bytes(self.tables())
    }

    #[verifier::type_invariant]
    spec fn size_matches(&self) -> bool {
        self.total_size == level_bytes(metadata_views(self.sstables@))
    }

    /// An empty level numbered `level_number`.
    pub fn new(level_number: usize) -> (r: Self)
        ensures
            r.number() == level_number,
            r.tables() == Seq::<SSTableMetadataView>::empty(),
    {
        let r = Level { level_number, sstables: Vec::new(), total_size: 0 };
        assert(metadata_views(r.sstables@) =~= Seq::<SSTableMetadataView>::empty());
        r
    }

    /// Appends a table and adds its size to the total.
    pub fn add_sstable(&mut self, metadata: SSTableMetadata)
        requires
            old(self).size() + metadata.file_size <= u64::MAX,
        ensures
            final(self).number() == old(self).number(),
            final(self).tables() == old(self).tables().push(metadata@),
    {
        let mut cur = Level::new(self.level_number);
        std::mem::swap(&mut cur, self);
        proof { use_type_invariant(&cur); }
        let Level { level_number, sstables, total_size } = cur;
        let ghost old_tables = metadata_views(sstables@);
        let file_size = metadata.file_size;
        let mut tables = sstables;
        tables.push(metadata);
        proof {
            assert(metadata_views(tables@).drop_last() =~= old_tables);
        }
        *self = Level { level_number, sstables: tables, total_size: total_size + file_size };
        assert(metadata_views(self.sstables@) =~= old_tables.push(metadata@));
    }

    /// Removes the first table numbered `file_number`, if there is one, and
    /// takes its size off the total.
    pub fn remove_sstable(&mut self, file_number: u64)
        ensures
            final(self).number() == old(self).number(),
            final(self).tables() == without_file(old(self).tables(), file_number),
    {
        let mut cur = Level::new(self.level_number);
        std::mem::swap(&mut cur, self);
        proof { use_type_invariant(&cur); }
        let Level { level_number, sstables, total_size } = cur;
        let ghost s = metadata_views(sstables@);
        let mut tables = sstables;
        let mut i: usize = 0;
        while i < tables.len()
            invariant
                i <= tables.len(),
                s == metadata_views(tables@),
                total_size == level_bytes(s),
                level_number == old(self).level_number,
                s == old(self).tables(),
                forall|j: int| 0 <= j < i ==> s[j].file_number != file_number,
            decreases tables.len() - i,
        {
            if tables[i].file_number == file_number {
                proof {
                    assert(is_first_with_number(s, file_number, i as int));
                    let k = choose|k: int| #[trigger] is_first_with_number(s, file_number, k);
                    assert(is_first_with_number(s, file_number, k));
                    assert(k == i as int);
                    assert(first_with_number(s, file_number) == Some(i as int));
                    lemma_level_bytes_remove(s, i as int);
                    lemma_level_bytes_nonneg(s.remove(i as int));
                }
                let removed = tables.remove(i);
                let size = total_size - removed.file_size;
                assert(metadata_views(tables@) =~= s.remove(i as int));
                *self = Level { level_number, sstables: tables, total_size: size };
                return;
            }
            i = i + 1;
        }
        assert(forall|k: int| !#[trigger] is_first_with_number(s, file_number, k));
        *self = Level { level_number, sstables: tables, total_size };
    }

    /// Whether the level is due for compaction: level 0 once it holds four
    /// files, any other level once its size exceeds `max_size`.
    pub open spec fn is_due(&self, max_size: int) -> bool {
        if self.number() == 0 {
            self.tables().len() >= LEVEL0_FILE_LIMIT
        } else {
            self.size() > max_size
        }
    }

    /// Whether the level is due for compaction against `max_size`.
    pub fn needs_compaction(&self, max_size: u64) -> (r: bool)
        ensures
            r == self.is_due(max_size as int),
    {
        proof { use_type_invariant(self); }
        if self.level_number == 0 {
            self.sstables.len() >= LEVEL0_FILE_LIMIT
        } else {
            self.total_size > max_size
        }
    }

    /// The level's number, table count and total size.
    pub fn stats(&self) -> (r: LevelStats)
        ensures
            r.level == self.number(),
            r.num_sstables == self.tables().len(),
            r.total_size == self.size(),
    {
        proof { use_type_invariant(self); }
        LevelStats { level: self.level_number, num_sstables: self.sstables.len(), total_size: self.total_size }
    }

    /// Number of tables in the level.
    pub fn table_count(&self) -> (r: usize)
        ensures
            r == self.tables().len(),
    {
        self.sstables.len()
    }

    /// The `i`-th table of the level.
    pub fn table_at(&self, i: usize) -> (r: &SSTableMetadata)
        requires
            i < self.tables().len(),
        ensures
            r@ == self.tables()[i as int],
    {
        &self.sstables[i]
    }

    /// Copies of the level's tables.
    pub fn sstables(&self) -> (r: Vec<SSTableMetadata>)
        ensures
            metadata_views(r@) == self.tables(),
    {
        let mut out: Vec<SSTableMetadata> = Vec::new();
        let mut i: usize = 0;
        while i < self.sstables.len()
            invariant
                i <= self.sstables.len(),
                metadata_views(out@) == metadata_views(self.sstables@).subrange(0, i as int),
            decreases self.sstables.len() - i,
        {
            let m = self.sstables[i].duplicate();
            out.push(m);
            proof {
                assert(metadata_views(out@).drop_last() =~= metadata_views(self.sstables@).subrange(0, i as int));
            }
            i = i + 1;
            assert(metadata_views(out@) =~= metadata_views(self.sstables@).subrange(0, i as int));
        }
        assert(metadata_views(self.sstables@).subrange(0, i as int) =~= metadata_views(self.sstables@));
        out
    }
}

/// Capacity in bytes of `level` for a tree whose memtable holds `base` bytes:
/// level 0 is limited by file count instead (0), level `l` holds `base * 10^l`.
pub open spec fn level_capacity(level: int, base: int) -> int {
    if level == 0 { 0 } else { base * ipow(LEVEL_GROWTH as int, level as nat) }
}

/// The computation of the capacity of `level` stays within `u64`: the power
/// and the product both fit.
pub open spec fn capacity_fits(level: int, base: int) -> bool {
    level == 0 || (ipow(LEVEL_GROWTH as int, level as nat) <= u64::MAX && level_capacity(level, base) <= u64::MAX)
}

/// Every capacity below level `n` can be computed.
pub open spec fn capacities_fit(n: int, base: int) -> bool {
    forall|l: int| 0 <= l < n ==> #[trigger] capacity_fits(l, base)
}

/// The capacity of `level` for a memtable of `base` bytes.
fn capacity(level: usize, base: u64) -> (r: u64)
    requires
        capacity_fits(level as int, base as int),
    ensures
        r == level_capacity(level as int, base as int),
{
    if level == 0 {
        return 0;
    }
    let mut p: u64 = 1;
    let mut i: usize = 0;
    while i < level
        invariant
            i <= level,
            level > 0,
            p == ipow(LEVEL_GROWTH as int, i as nat),
            ipow(LEVEL_GROWTH as int, level as nat) <= u64::MAX,
        decreases level - i,
    {
        proof {
            lemma_ipow_mono((i + 1) as nat, level as nat);
        }
        p = p * LEVEL_GROWTH;
        i = i + 1;
    }
    base * p
}

proof fn lemma_ipow_ge1(e: nat)
    ensures
        ipow(LEVEL_GROWTH as int, e) >= 1,
    decreases e,
{
    if e > 0 {
        lemma_ipow_ge1((e - 1) as nat);
    }
}

proof fn lemma_ipow_mono(e1: nat, e2: nat)
    requires
        e1 <= e2,
    ensures
        ipow(LEVEL_GROWTH as int, e1) <= ipow(LEVEL_GROWTH as int, e2),
    decreases e2,
{
    if e1 < e2 {
        lemma_ipow_mono(e1, (e2 - 1) as nat);
        lemma_ipow_ge1((e2 - 1) as nat);
    }
}

/// Whether level `i` of `levels` is due for compaction, its capacity derived
/// from a memtable of `base` bytes.
pub open spec fn due_at(levels: Seq<Level>, i: int, base: int) -> bool {
    levels[i].is_due(level_capacity(i, base))
}

/// The first level that is due for compaction, scanning from level 0, for a
/// tree whose memtable holds `memtable_size` bytes.
pub fn level_to_compact(levels: &Vec<Level>, memtable_size: usize) -> (r: Option<usize>)
    requires
        capacities_fit(levels.len() as int, memtable_size as int),
    ensures
        match r {
            Some(i) => i < levels.len() && due_at(levels@, i as int, memtable_size as int) && forall|j: int|
                0 <= j < i ==> !due_at(levels@, j, memtable_size as int),
            None => forall|j: int| 0 <= j < levels.len() ==> !due_at(levels@, j, memtable_size as int),
        },
{
    let mut i: usize = 0;
    while i < levels.len()
        invariant
            i <= levels.len(),
            capacities_fit(levels.len() as int, memtable_size as int),
            forall|j: int| 0 <= j < i ==> !due_at(levels@, j, memtable_size as int),
        decreases levels.len() - i,
    {
        assert(capacity_fits(i as int, memtable_size as int));
        let max_size = capacity(i, memtable_size as u64);
        if levels[i].needs_compaction(max_size) {
            return Some(i);
        }
        i = i + 1;
    }
    None
}

/// The tables of level `j` after a compaction that merged `source` tables of
/// level `src` with `target` tables of level `dst` into `fresh` tables at
/// level `dst`.
pub open spec fn compacted(
    tables: Seq<SSTableMetadataView>,
    j: int,
    src: int,
    dst: int,
    source: Seq<SSTableMetadataView>,
    target: Seq<SSTableMetadataView>,
    fresh: Seq<SSTableMetadataView>,
) -> Seq<SSTableMetadataView> {
    let after_source = if j == src { without_files(tables, source) } else { tables };
    if j == dst { without_files(after_source, target) + fresh } else { after_source }
}

/// Takes the merged tables out of their levels and adds the tables the merge
/// produced to the target level.
pub fn apply_compaction(levels: &mut Vec<Level>, task: &CompactionTask, new_sstables: &Vec<SSTableMetadata>)
    requires
        task.source_level < old(levels).len(),
        task.target_level < old(levels).len(),
        old(levels)@[task.target_level as int].size() + level_bytes(metadata_views(new_sstables@)) <= u64::MAX,
    ensures
        final(levels).len() == old(levels).len(),
        forall|j: int| 0 <= j < old(levels).len() ==> {
            &&& (#[trigger] final(levels)@[j]).number() == old(levels)@[j].number()
            &&& final(levels)@[j].tables() == compacted(
                old(levels)@[j].tables(),
                j,
                task.source_level as int,
                task.target_level as int,
                metadata_views(task.source_sstables@),
                metadata_views(task.target_sstables@),
                metadata_views(new_sstables@),
            )
        },
{
    let ghost start = levels@;
    let src = task.source_level;
    let dst = task.target_level;
    let ghost source = metadata_views(task.source_sstables@);
    let ghost target = metadata_views(task.target_sstables@);
    let ghost fresh = metadata_views(new_sstables@);
    let mut k: usize = 0;
    while k < task.source_sstables.len()
        invariant
            k <= task.source_sstables.len(),
            src < levels.len(),
            levels.len() == start.len(),
            source == metadata_views(task.source_sstables@),
            forall|j: int| 0 <= j < start.len() && j != src ==> #[trigger] levels@[j] == start[j],
            levels@[src as int].number() == start[src as int].number(),
            levels@[src as int].tables() == without_files(start[src as int].tables(), source.subrange(0, k as int)),
        decreases task.source_sstables.len() - k,
    {
        let n = task.source_sstables[k].file_number;
        let mut lv = levels.remove(src);
        lv.remove_sstable(n);
        levels.insert(src, lv);
        proof {
            assert(source.subrange(0, k + 1).drop_last() =~= source.subrange(0, k as int));
            assert forall|j: int| 0 <= j < start.len() && j != src implies #[trigger] levels@[j] == start[j] by {}
        }
        k = k + 1;
    }
    assert(source.subrange(0, k as int) =~= source);
    let ghost mid = levels@;
    let mut k: usize = 0;
    while k < task.target_sstables.len()
        invariant
            k <= task.target_sstables.len(),
            dst < levels.len(),
            levels.len() == start.len(),
            target == metadata_views(task.target_sstables@),
            forall|j: int| 0 <= j < start.len() && j != dst ==> #[trigger] levels@[j] == mid[j],
            levels@[dst as int].number() == mid[dst as int].number(),
            levels@[dst as int].tables() == without_files(mid[dst as int].tables(), target.subrange(0, k as int)),
        decreases task.target_sstables.len() - k,
    {
        let n = task.target_sstables[k].file_number;
        let mut lv = levels.remove(dst);
        lv.remove_sstable(n);
        levels.insert(dst, lv);
        proof {
            assert(target.subrange(0, k + 1).drop_last() =~= target.subrange(0, k as int));
            assert forall|j: int| 0 <= j < start.len() && j != dst implies #[trigger] levels@[j] == mid[j] by {}
        }
        k = k + 1;
    }
    assert(target.subrange(0, k as int) =~= target);
    let ghost before_add = levels@[dst as int].tables();
    proof {
        lemma_without_files_bytes(mid[dst as int].tables(), target);
        if src == dst {
            lemma_without_files_bytes(start[dst as int].tables(), source);
        }
        lemma_level_bytes_nonneg(fresh);
    }
    let mut k: usize = 0;
    while k < new_sstables.len()
        invariant
            k <= new_sstables.len(),
            dst < levels.len(),
            levels.len() == start.len(),
            fresh == metadata_views(new_sstables@),
            forall|j: int| 0 <= j < start.len() && j != dst ==> #[trigger] levels@[j] == mid[j],
            levels@[dst as int].number() == mid[dst as int].number(),
            levels@[dst as int].tables() == before_add + fresh.subrange(0, k as int),
            level_bytes(before_add) + level_bytes(fresh) <= u64::MAX,
        decreases new_sstables.len() - k,
    {
        let m = new_sstables[k].duplicate();
        let mut lv = levels.remove(dst);
        proof {
            lemma_level_bytes_concat(before_add, fresh.subrange(0, k as int));
            lemma_level_bytes_concat(fresh.subrange(0, k + 1), fresh.subrange(k + 1, fresh.len() as int));
            assert(fresh =~= fresh.subrange(0, k + 1) + fresh.subrange(k + 1, fresh.len() as int));
            lemma_level_bytes_nonneg(fresh.subrange(k + 1, fresh.len() as int));
            assert(fresh.subrange(0, k + 1).drop_last() =~= fresh.subrange(0, k as int));
        }
        lv.add_sstable(m);
        levels.insert(dst, lv);
        proof {
            assert(levels@[dst as int].tables() =~= before_add + fresh.subrange(0, k + 1));
            assert forall|j: int| 0 <= j < start.len() && j != dst implies #[trigger] levels@[j] == mid[j] by {}
        }
        k = k + 1;
    }
    assert(fresh.subrange(0, k as int) =~= fresh);
}

} // verus!
