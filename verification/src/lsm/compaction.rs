//! Leveled compaction: when a level is too large, choose what to merge into the next.
use vstd::prelude::*;
use crate::keyorder::{compare_keys, key_less, lemma_lex_irreflexive, lemma_lex_le_transitive, lemma_lex_trichotomy, lex_le, lex_lt, KeyOrder};
use crate::lsm::memtable::{Entry, EntryView};
use crate::lsm::sstable::{metadata_views, SSTableMetadata, SSTableMetadataView};

verus! {

/// Compaction task: SSTables of one level to merge with the overlapping ones of the next.
#[derive(Debug, Clone)]
pub struct CompactionTask {
    pub source_level: usize,
    pub target_level: usize,
    pub source_sstables: Vec<SSTableMetadata>,
    pub target_sstables: Vec<SSTableMetadata>,
}

/// An entry being merged, with where it came from.
#[derive(Debug, Clone)]
pub struct MergeEntry {
    pub entry: Entry,
    pub source_level: usize,
    pub source_file: u64,
}

/// Order of a merge heap: smaller keys first, then newer (higher sequence) entries;
/// `Greater` means `a` is taken from the heap before `b`.
pub open spec fn merge_heap_order(a: EntryView, b: EntryView) -> KeyOrder {
    match KeyOrder::of(b.key, a.key) {
        KeyOrder::Equal => if b.sequence < a.sequence {
            KeyOrder::Less
        } else if b.sequence == a.sequence {
            KeyOrder::Equal
        } else {
            KeyOrder::Greater
        },
        o => o,
    }
}

/// The merge heap takes smaller keys first and, among entries of one key, the
/// newest (highest sequence) first: for equal keys the order is the reverse of
/// the sequence numbers' order, and for different keys it is the reverse of
/// the keys' order. The order is antisymmetric.
pub proof fn lemma_merge_heap_order(a: EntryView, b: EntryView)
    ensures
        a.key == b.key ==> ((merge_heap_order(a, b) == KeyOrder::Less) <==> b.sequence < a.sequence),
        a.key == b.key ==> ((merge_heap_order(a, b) == KeyOrder::Greater) <==> a.sequence < b.sequence),
        a.key == b.key ==> ((merge_heap_order(a, b) == KeyOrder::Equal) <==> a.sequence == b.sequence),
        lex_lt(a.key, b.key) ==> merge_heap_order(a, b) == KeyOrder::Greater,
        lex_lt(b.key, a.key) ==> merge_heap_order(a, b) == KeyOrder::Less,
        (merge_heap_order(a, b) == KeyOrder::Less) <==> (merge_heap_order(b, a) == KeyOrder::Greater),
{
    lemma_lex_trichotomy(a.key, b.key);
    lemma_lex_irreflexive(a.key);
}

impl MergeEntry {
    /// Heap order of two merge entries: `Greater` when `self` comes out first.
    pub fn heap_order(&self, other: &MergeEntry) -> (r: KeyOrder)
        ensures
            r == merge_heap_order(self.entry@, other.entry@),
            self.entry.key@ == other.entry.key@ ==> ((r == KeyOrder::Less) <==> other.entry.sequence < self.entry.sequence),
            self.entry.key@ == other.entry.key@ ==> ((r == KeyOrder::Greater) <==> self.entry.sequence < other.entry.sequence),
            self.entry.key@ == other.entry.key@ ==> ((r == KeyOrder::Equal) <==> self.entry.sequence == other.entry.sequence),
            lex_lt(self.entry.key@, other.entry.key@) ==> r == KeyOrder::Greater,
            lex_lt(other.entry.key@, self.entry.key@) ==> r == KeyOrder::Less,
    {
        proof {
            lemma_merge_heap_order(self.entry@, other.entry@);
        }
        match compare_keys(other.entry.key.as_slice(), self.entry.key.as_slice()) {
            KeyOrder::Equal => {
                if other.entry.sequence < self.entry.sequence {
                    KeyOrder::Less
                } else if other.entry.sequence == self.entry.sequence {
                    KeyOrder::Equal
                } else {
                    KeyOrder::Greater
                }
            },
            o => o,
        }
    }
}

/// `b` raised to the power `e`.
pub open spec fn ipow(b: int, e: nat) -> int
    decreases e,
{
    if e == 0 {
        1
    } else {
        b * ipow(b, (e - 1) as nat)
    }
}

proof fn lemma_ipow_positive(b: int, e: nat)
    requires
        b >= 1,
    ensures
        ipow(b, e) >= 1,
    decreases e,
{
    if e > 0 {
        lemma_ipow_positive(b, (e - 1) as nat);
        assert(b * ipow(b, (e - 1) as nat) >= 1) by (nonlinear_arith)
            requires
                b >= 1,
                ipow(b, (e - 1) as nat) >= 1,
        ;
    }
}

proof fn lemma_ipow_monotone(b: int, e1: nat, e2: nat)
    requires
        b >= 1,
        e1 <= e2,
    ensures
        1 <= ipow(b, e1) <= ipow(b, e2),
    decreases e2,
{
    lemma_ipow_positive(b, e1);
    if e1 < e2 {
        lemma_ipow_monotone(b, e1, (e2 - 1) as nat);
        assert(ipow(b, (e2 - 1) as nat) <= b * ipow(b, (e2 - 1) as nat)) by (nonlinear_arith)
            requires
                b >= 1,
                ipow(b, (e2 - 1) as nat) >= 1,
        ;
    }
}

/// Target size in bytes of `level`: level 0 is limited by file count instead (0),
/// level `l` holds `base_size * multiplier^l`.
pub open spec fn target_size_spec(multiplier: usize, level: usize, base_size: u64) -> int {
    if level == 0 {
        0
    } else {
        base_size * ipow(multiplier as int, (level as u32) as nat)
    }
}

/// The computation of a target size stays within `u64`.
pub open spec fn target_size_fits(multiplier: usize, level: usize, base_size: u64) -> bool {
    level == 0 || (ipow(multiplier as int, (level as u32) as nat) <= u64::MAX
        && base_size * ipow(multiplier as int, (level as u32) as nat) <= u64::MAX)
}

/// Total file size of a level.
pub open spec fn level_bytes(s: Seq<SSTableMetadataView>) -> int
    decreases s.len(),
{
    if s.len() == 0 {
        0
    } else {
        level_bytes(s.drop_last()) + s.last().file_size
    }
}

/// The smallest `min_key` of the tables.
pub open spec fn smallest_min_key(s: Seq<SSTableMetadataView>) -> Seq<u8>
    decreases s.len(),
{
    if s.len() <= 1 {
        s[0].min_key
    } else {
        let m = smallest_min_key(s.drop_last());
        if lex_lt(s.last().min_key, m) { s.last().min_key } else { m }
    }
}

/// The largest `max_key` of the tables.
pub open spec fn largest_max_key(s: Seq<SSTableMetadataView>) -> Seq<u8>
    decreases s.len(),
{
    if s.len() <= 1 {
        s[0].max_key
    } else {
        let m = largest_max_key(s.drop_last());
        if lex_lt(m, s.last().max_key) { s.last().max_key } else { m }
    }
}

/// The tables of `target` whose key range meets `[lo, hi]`.
pub open spec fn overlaps(lo: Seq<u8>, hi: Seq<u8>) -> spec_fn(SSTableMetadataView) -> bool {
    |t: SSTableMetadataView| !(lex_lt(t.max_key, lo) || lex_lt(hi, t.min_key))
}

/// The tables of `target` that overlap the key range spanned by `source`.
pub open spec fn overlapping_spec(source: Seq<SSTableMetadataView>, target: Seq<SSTableMetadataView>) -> Seq<SSTableMetadataView> {
    if source.len() == 0 || target.len() == 0 {
        Seq::empty()
    } else {
        target.filter(overlaps(smallest_min_key(source), largest_max_key(source)))
    }
}

/// The tables whose key range reaches that of `source` from both sides: some
/// table of `source` starts at or before where it ends, and some table of
/// `source` ends at or after where it starts.
pub open spec fn meets_source(source: Seq<SSTableMetadataView>) -> spec_fn(SSTableMetadataView) -> bool {
    |t: SSTableMetadataView|
        (exists|i: int| 0 <= i < source.len() && lex_le(source[i].min_key, t.max_key))
            && (exists|k: int| 0 <= k < source.len() && lex_le(t.min_key, source[k].max_key))
}

/// Ranges `[a_min, a_max]` and `[b_min, b_max]` share a key.
pub open spec fn ranges_meet(a_min: Seq<u8>, a_max: Seq<u8>, b_min: Seq<u8>, b_max: Seq<u8>) -> bool {
    lex_le(a_min, b_max) && lex_le(b_min, a_max)
}

/// A key at or above the smallest `min_key` of the tables is at or above the
/// `min_key` of one of them, and the other way round.
pub proof fn lemma_smallest_min_key(s: Seq<SSTableMetadataView>)
    requires
        s.len() > 0,
    ensures
        exists|i: int| 0 <= i < s.len() && s[i].min_key == smallest_min_key(s),
        forall|i: int| 0 <= i < s.len() ==> lex_le(smallest_min_key(s), #[trigger] s[i].min_key),
        forall|x: Seq<u8>| lex_le(smallest_min_key(s), x)
            <==> (exists|i: int| 0 <= i < s.len() && lex_le(s[i].min_key, x)),
    decreases s.len(),
{
    let m = smallest_min_key(s);
    if s.len() > 1 {
        let d = s.drop_last();
        lemma_smallest_min_key(d);
        let md = smallest_min_key(d);
        let l = s.last().min_key;
        lemma_lex_trichotomy(l, md);
        if lex_lt(l, md) {
            assert(s[s.len() - 1].min_key == m);
            assert forall|i: int| 0 <= i < s.len() implies lex_le(m, #[trigger] s[i].min_key) by {
                if i < s.len() - 1 {
                    assert(s[i] == d[i]);
                    lemma_lex_le_transitive(l, md, s[i].min_key);
                }
            }
        } else {
            let i0 = choose|i: int| 0 <= i < d.len() && d[i].min_key == md;
            assert(s[i0] == d[i0]);
            assert forall|i: int| 0 <= i < s.len() implies lex_le(m, #[trigger] s[i].min_key) by {
                if i < s.len() - 1 {
                    assert(s[i] == d[i]);
                }
            }
        }
    } else {
        assert(s[0].min_key == m);
        assert forall|i: int| 0 <= i < s.len() implies lex_le(m, #[trigger] s[i].min_key) by {
            assert(i == 0);
        }
    }
    assert forall|x: Seq<u8>| lex_le(m, x)
        <==> (exists|i: int| 0 <= i < s.len() && lex_le(s[i].min_key, x)) by {
        if lex_le(m, x) {
            let i0 = choose|i: int| 0 <= i < s.len() && s[i].min_key == m;
            assert(lex_le(s[i0].min_key, x));
        }
        if exists|i: int| 0 <= i < s.len() && lex_le(s[i].min_key, x) {
            let i1 = choose|i: int| 0 <= i < s.len() && lex_le(s[i].min_key, x);
            lemma_lex_le_transitive(m, s[i1].min_key, x);
        }
    }
}

/// A key at or below the largest `max_key` of the tables is at or below the
/// `max_key` of one of them, and the other way round.
pub proof fn lemma_largest_max_key(s: Seq<SSTableMetadataView>)
    requires
        s.len() > 0,
    ensures
        exists|i: int| 0 <= i < s.len() && s[i].max_key == largest_max_key(s),
        forall|i: int| 0 <= i < s.len() ==> lex_le(#[trigger] s[i].max_key, largest_max_key(s)),
        forall|x: Seq<u8>| lex_le(x, largest_max_key(s))
            <==> (exists|i: int| 0 <= i < s.len() && lex_le(x, s[i].max_key)),
    decreases s.len(),
{
    let m = largest_max_key(s);
    if s.len() > 1 {
        let d = s.drop_last();
        lemma_largest_max_key(d);
        let md = largest_max_key(d);
        let l = s.last().max_key;
        lemma_lex_trichotomy(md, l);
        if lex_lt(md, l) {
            assert(s[s.len() - 1].max_key == m);
            assert forall|i: int| 0 <= i < s.len() implies lex_le(#[trigger] s[i].max_key, m) by {
                if i < s.len() - 1 {
                    assert(s[i] == d[i]);
                    lemma_lex_le_transitive(s[i].max_key, md, l);
                }
            }
        } else {
            let i0 = choose|i: int| 0 <= i < d.len() && d[i].max_key == md;
            assert(s[i0] == d[i0]);
            assert forall|i: int| 0 <= i < s.len() implies lex_le(#[trigger] s[i].max_key, m) by {
                if i < s.len() - 1 {
                    assert(s[i] == d[i]);
                }
            }
        }
    } else {
        assert(s[0].max_key == m);
        assert forall|i: int| 0 <= i < s.len() implies lex_le(#[trigger] s[i].max_key, m) by {
            assert(i == 0);
        }
    }
    assert forall|x: Seq<u8>| lex_le(x, m)
        <==> (exists|i: int| 0 <= i < s.len() && lex_le(x, s[i].max_key)) by {
        if lex_le(x, m) {
            let i0 = choose|i: int| 0 <= i < s.len() && s[i].max_key == m;
            assert(lex_le(x, s[i0].max_key));
        }
        if exists|i: int| 0 <= i < s.len() && lex_le(x, s[i].max_key) {
            let i1 = choose|i: int| 0 <= i < s.len() && lex_le(x, s[i].max_key);
            lemma_lex_le_transitive(x, s[i1].max_key, m);
        }
    }
}

/// The tables chosen from `target` are, in their order, exactly those that some
/// table of `source` starts at or before the end of and some table of `source`
/// ends at or after the start of; in particular every table of `target` whose
/// range meets that of any one table of `source` is chosen. Nothing is chosen
/// for an empty `source`.
pub proof fn lemma_overlapping_tables(source: Seq<SSTableMetadataView>, target: Seq<SSTableMetadataView>)
    ensures
        source.len() == 0 ==> overlapping_spec(source, target) == Seq::<SSTableMetadataView>::empty(),
        source.len() > 0 ==> overlapping_spec(source, target) == target.filter(meets_source(source)),
        forall|i: int, j: int|
            0 <= i < source.len() && 0 <= j < target.len()
                && #[trigger] ranges_meet(source[i].min_key, source[i].max_key, target[j].min_key, target[j].max_key)
                ==> overlapping_spec(source, target).contains(target[j]),
{
    if source.len() > 0 {
        let lo = smallest_min_key(source);
        let hi = largest_max_key(source);
        assert forall|t: SSTableMetadataView| #[trigger] overlaps(lo, hi)(t) == meets_source(source)(t) by {
            lemma_span_meets(source, t);
        }
        assert(overlaps(lo, hi) =~= meets_source(source));
        if target.len() == 0 {
            reveal(Seq::filter);
            assert(target.filter(meets_source(source)) =~= Seq::<SSTableMetadataView>::empty());
        }
        assert forall|i: int, j: int|
            0 <= i < source.len() && 0 <= j < target.len()
                && #[trigger] ranges_meet(source[i].min_key, source[i].max_key, target[j].min_key, target[j].max_key)
                implies overlapping_spec(source, target).contains(target[j]) by {
            assert(meets_source(source)(target[j]));
            target.lemma_filter_contains(meets_source(source), j);
        }
    }
}

proof fn lemma_span_meets(source: Seq<SSTableMetadataView>, t: SSTableMetadataView)
    requires
        source.len() > 0,
    ensures
        overlaps(smallest_min_key(source), largest_max_key(source))(t) == meets_source(source)(t),
{
    lemma_smallest_min_key(source);
    lemma_largest_max_key(source);
    let lo = smallest_min_key(source);
    let hi = largest_max_key(source);
    lemma_lex_trichotomy(t.max_key, lo);
    lemma_lex_trichotomy(hi, t.min_key);
    assert(lex_le(lo, t.max_key) <==> (exists|i: int| 0 <= i < source.len() && lex_le(source[i].min_key, t.max_key)));
    assert(lex_le(t.min_key, hi) <==> (exists|i: int| 0 <= i < source.len() && lex_le(t.min_key, source[i].max_key)));
}

/// Compaction strategy.
pub struct CompactionStrategy {
    pub level_size_multiplier: usize,
    pub max_level: usize,
    pub level0_file_num_compaction_trigger: usize,
}

/// The default strategy: ten-fold growth per level, seven levels, level 0
/// compacted at four files.
pub open spec fn default_strategy() -> CompactionStrategy {
    CompactionStrategy { level_size_multiplier: 10, max_level: 7, level0_file_num_compaction_trigger: 4 }
}

impl Default for CompactionStrategy {
    /// Ten-fold growth per level, seven levels, level 0 compacted at four files.
    fn default() -> (r: Self)
        ensures
            r == default_strategy(),
    {
        CompactionStrategy { level_size_multiplier: 10, max_level: 7, level0_file_num_compaction_trigger: 4 }
    }
}

/// Copies the tables.
fn copy_tables(v: &Vec<SSTableMetadata>) -> (r: Vec<SSTableMetadata>)
    ensures
        metadata_views(r@) == metadata_views(v@),
{
    let mut out: Vec<SSTableMetadata> = Vec::new();
    let mut i: usize = 0;
    while i < v.len()
        invariant
            i <= v@.len(),
            metadata_views(out@) == metadata_views(v@).subrange(0, i as int),
        decreases v@.len() - i,
    {
        let ghost o0 = out@;
        out.push(v[i].duplicate());
        assert(metadata_views(out@) =~= metadata_views(o0).push(v@[i as int]@));
        assert(metadata_views(v@).subrange(0, i + 1) =~= metadata_views(v@).subrange(0, i as int).push(v@[i as int]@));
        i = i + 1;
    }
    assert(metadata_views(v@).subrange(0, i as int) =~= metadata_views(v@));
    out
}

impl CompactionStrategy {
    /// Target size of a level.
    pub fn target_size(&self, level: usize, base_size: u64) -> (r: u64)
        requires
            target_size_fits(self.level_size_multiplier, level, base_size),
        ensures
            r == target_size_spec(self.level_size_multiplier, level, base_size),
    {
        if level == 0 {
            return 0;
        }
        let m = self.level_size_multiplier as u64;
        let e = level as u32;
        let mut p: u64 = 1;
        let mut i: u32 = 0;
        while i < e
            invariant
                i <= e,
                p == ipow(m as int, i as nat),
                ipow(m as int, e as nat) <= u64::MAX,
            decreases e - i,
        {
            proof {
                assert(ipow(m as int, (i + 1) as nat) == m * ipow(m as int, i as nat));
                assert(p * m == m * p) by (nonlinear_arith);
                if m >= 1 {
                    lemma_ipow_monotone(m as int, (i + 1) as nat, e as nat);
                } else {
                    assert(m == 0);
                    assert(m * p == 0);
                }
            }
            p = p * m;
            i = i + 1;
        }
        base_size * p
    }

    /// The tables of `target` whose key range overlaps the range spanned by `source`.
    fn find_overlapping_sstables(&self, source: &Vec<SSTableMetadata>, target: &Vec<SSTableMetadata>) -> (r: Vec<SSTableMetadata>)
        ensures
            metadata_views(r@) == overlapping_spec(metadata_views(source@), metadata_views(target@)),
            source@.len() == 0 ==> r@.len() == 0,
            source@.len() > 0 ==> metadata_views(r@) == metadata_views(target@).filter(meets_source(metadata_views(source@))),
            forall|i: int, j: int|
                0 <= i < source@.len() && 0 <= j < target@.len() && #[trigger] ranges_meet(
                    source@[i]@.min_key,
                    source@[i]@.max_key,
                    target@[j]@.min_key,
                    target@[j]@.max_key,
                ) ==> metadata_views(r@).contains(target@[j]@),
    {
        let ghost sv = metadata_views(source@);
        let ghost tv = metadata_views(target@);
        proof {
            lemma_overlapping_tables(sv, tv);
            assert forall|i: int, j: int|
                0 <= i < source@.len() && 0 <= j < target@.len() && #[trigger] ranges_meet(
                    source@[i]@.min_key,
                    source@[i]@.max_key,
                    target@[j]@.min_key,
                    target@[j]@.max_key,
                ) implies overlapping_spec(sv, tv).contains(target@[j]@) by {
                assert(sv[i] == source@[i]@);
                assert(tv[j] == target@[j]@);
            }
        }
        if source.len() == 0 || target.len() == 0 {
            let r: Vec<SSTableMetadata> = Vec::new();
            assert(metadata_views(r@) =~= Seq::<SSTableMetadataView>::empty());
            return r;
        }
        let mut lo: &Vec<u8> = &source[0].min_key;
        let mut hi: &Vec<u8> = &source[0].max_key;
        let mut i: usize = 1;
        assert(sv.subrange(0, 1).len() == 1);
        while i < source.len()
            invariant
                sv == metadata_views(source@),
                sv.len() == source@.len(),
                1 <= i <= sv.len(),
                lo@ == smallest_min_key(sv.subrange(0, i as int)),
                hi@ == largest_max_key(sv.subrange(0, i as int)),
            decreases sv.len() - i,
        {
            assert(sv.subrange(0, i + 1).drop_last() =~= sv.subrange(0, i as int));
            assert(sv[i as int] == source@[i as int]@);
            if key_less(source[i].min_key.as_slice(), lo.as_slice()) {
                lo = &source[i].min_key;
            }
            if key_less(hi.as_slice(), source[i].max_key.as_slice()) {
                hi = &source[i].max_key;
            }
            i = i + 1;
        }
        assert(sv.subrange(0, i as int) =~= sv);
        let ghost p = overlaps(lo@, hi@);
        let mut out: Vec<SSTableMetadata> = Vec::new();
        let mut j: usize = 0;
        proof {
            reveal(Seq::filter);
            assert(tv.subrange(0, 0).filter(p) =~= Seq::<SSTableMetadataView>::empty());
        }
        while j < target.len()
            invariant
                tv == metadata_views(target@),
                tv.len() == target@.len(),
                j <= tv.len(),
                metadata_views(out@) == tv.subrange(0, j as int).filter(p),
                p == overlaps(lo@, hi@),
            decreases tv.len() - j,
        {
            let ghost before = tv.subrange(0, j as int);
            assert(tv.subrange(0, j + 1) =~= before.push(tv[j as int]));
            proof {
                before.lemma_filter_push(tv[j as int], p);
            }
            assert(tv[j as int] == target@[j as int]@);
            let t = &target[j];
            if !(key_less(t.max_key.as_slice(), lo.as_slice()) || key_less(hi.as_slice(), t.min_key.as_slice())) {
                let ghost o0 = out@;
                out.push(t.duplicate());
                assert(metadata_views(out@) =~= metadata_views(o0).push(tv[j as int]));
            }
            j = j + 1;
        }
        assert(tv.subrange(0, j as int) =~= tv);
        out
    }
    /// Total file size of a level.
    fn level_size(tables: &Vec<SSTableMetadata>) -> (r: u64)
        requires
            level_bytes(metadata_views(tables@)) <= u64::MAX,
        ensures
            r == level_bytes(metadata_views(tables@)),
    {
        let ghost v = metadata_views(tables@);
        let mut sum: u64 = 0;
        let mut i: usize = 0;
        while i < tables.len()
            invariant
                v == metadata_views(tables@),
                v.len() == tables@.len(),
                i <= v.len(),
                sum == level_bytes(v.subrange(0, i as int)),
                level_bytes(v) <= u64::MAX,
            decreases v.len() - i,
        {
            proof {
                assert(v.subrange(0, i + 1).drop_last() =~= v.subrange(0, i as int));
                lemma_level_bytes_prefix(v, i + 1);
            }
            assert(v[i as int].file_size == tables@[i as int].file_size);
            sum = sum + tables[i].file_size;
            i = i + 1;
        }
        assert(v.subrange(0, i as int) =~= v);
        sum
    }

    /// The first level from `level` on, below `max_level` and the number of levels,
    /// whose size exceeds its target.
    pub open spec fn oversized_from(&self, levels: Seq<Seq<SSTableMetadataView>>, base_size: u64, level: int) -> Option<int>
        decreases self.max_level - level,
    {
        if level < 1 || level >= self.max_level || level >= levels.len() {
            None
        } else if level_bytes(levels[level]) > target_size_spec(self.level_size_multiplier, level as usize, base_size) {
            Some(level)
        } else {
            self.oversized_from(levels, base_size, level + 1)
        }
    }

    /// The size computations of the levels examined from `level` on stay within `u64`.
    pub open spec fn scan_fits(&self, levels: Seq<Seq<SSTableMetadataView>>, base_size: u64, level: int) -> bool
        decreases self.max_level - level,
    {
        if level < 1 || level >= self.max_level || level >= levels.len() {
            true
        } else {
            &&& level_bytes(levels[level]) <= u64::MAX
            &&& target_size_fits(self.level_size_multiplier, level as usize, base_size)
            &&& (level_bytes(levels[level]) > target_size_spec(self.level_size_multiplier, level as usize, base_size)
                || self.scan_fits(levels, base_size, level + 1))
        }
    }

    /// The compaction to run on `levels`, if any: level 0 once it holds enough files,
    /// else the first table of the first level over its target size; either goes into
    /// the next level together with that level's overlapping tables.
    pub open spec fn selection(&self, levels: Seq<Seq<SSTableMetadataView>>, base_size: u64) -> Option<(usize, usize, Seq<SSTableMetadataView>, Seq<SSTableMetadataView>)> {
        if levels[0].len() >= self.level0_file_num_compaction_trigger {
            Some((0usize, 1usize, levels[0], overlapping_spec(levels[0], levels[1])))
        } else {
            match self.oversized_from(levels, base_size, 1) {
                Some(l) => {
                    let source = seq![levels[l][0]];
                    Some((l as usize, (l + 1) as usize, source, if l + 1 < levels.len() {
                        overlapping_spec(source, levels[l + 1])
                    } else {
                        Seq::empty()
                    }))
                },
                None => None,
            }
        }
    }

    /// Chooses the next compaction.
    pub fn select_compaction(&self, levels: &[Vec<SSTableMetadata>], base_size: u64) -> (r: Option<CompactionTask>)
        requires
            levels@.len() >= 1,
            levels@[0]@.len() >= self.level0_file_num_compaction_trigger ==> levels@.len() >= 2,
            levels@[0]@.len() < self.level0_file_num_compaction_trigger ==> self.scan_fits(
                levels@.map_values(|l: Vec<SSTableMetadata>| metadata_views(l@)),
                base_size,
                1,
            ),
        ensures
            match (r, self.selection(levels@.map_values(|l: Vec<SSTableMetadata>| metadata_views(l@)), base_size)) {
                (Some(t), Some((sl, tl, src, tgt))) => t.source_level == sl && t.target_level == tl
                    && metadata_views(t.source_sstables@) == src && metadata_views(t.target_sstables@) == tgt,
                (None, None) => true,
                _ => false,
            },
    {
        let ghost lv = levels@.map_values(|l: Vec<SSTableMetadata>| metadata_views(l@));
        assert(lv[0] == metadata_views(levels@[0]@));
        if levels[0].len() >= self.level0_file_num_compaction_trigger {
            assert(lv[1] == metadata_views(levels@[1]@));
            let source = copy_tables(&levels[0]);
            let target = self.find_overlapping_sstables(&levels[0], &levels[1]);
            return Some(CompactionTask { source_level: 0, target_level: 1, source_sstables: source, target_sstables: target });
        }
        let mut level: usize = 1;
        while level < self.max_level && level < levels.len()
            invariant
                lv == levels@.map_values(|l: Vec<SSTableMetadata>| metadata_views(l@)),
                lv[0].len() < self.level0_file_num_compaction_trigger,
                lv.len() == levels@.len(),
                1 <= level,
                self.oversized_from(lv, base_size, 1) == self.oversized_from(lv, base_size, level as int),
                self.scan_fits(lv, base_size, level as int),
            decreases self.max_level - level,
        {
            assert(lv[level as int] == metadata_views(levels@[level as int]@));
            let current_size = Self::level_size(&levels[level]);
            let target_size = self.target_size(level, base_size);
            if current_size > target_size {
                proof {
                    lemma_level_bytes_nonempty(lv[level as int]);
                }
                let first = levels[level][0].duplicate();
                let mut source: Vec<SSTableMetadata> = Vec::new();
                source.push(first);
                assert(metadata_views(source@) =~= seq![lv[level as int][0]]);
                let target = if level + 1 < levels.len() {
                    assert(lv[level + 1] == metadata_views(levels@[level + 1]@));
                    self.find_overlapping_sstables(&source, &levels[level + 1])
                } else {
                    let t: Vec<SSTableMetadata> = Vec::new();
                    assert(metadata_views(t@) =~= Seq::<SSTableMetadataView>::empty());
                    t
                };
                return Some(CompactionTask {
                    source_level: level,
                    target_level: level + 1,
                    source_sstables: source,
                    target_sstables: target,
                });
            }
            level = level + 1;
        }
        None
    }
}

/// The bytes of a prefix of the tables are at most those of all of them.
proof fn lemma_level_bytes_prefix(v: Seq<SSTableMetadataView>, i: int)
    requires
        0 <= i <= v.len(),
    ensures
        level_bytes(v.subrange(0, i)) <= level_bytes(v),
    decreases v.len() - i,
{
    if i < v.len() {
        lemma_level_bytes_prefix(v, i + 1);
        assert(v.subrange(0, i + 1).drop_last() =~= v.subrange(0, i));
    } else {
        assert(v.subrange(0, i) =~= v);
    }
}

/// A level holding some bytes holds some table.
proof fn lemma_level_bytes_nonempty(v: Seq<SSTableMetadataView>)
    ensures
        level_bytes(v) > 0 ==> v.len() > 0,
{
}

} // verus!
