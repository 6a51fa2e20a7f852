//! Executing a compaction: merging sorted runs of entries, dropping shadowed versions
//! and deletions, and cutting the result into output tables.
use vstd::prelude::*;
use vstd::multiset::Multiset;
use crate::keyorder::{compare_keys, key_eq, lemma_lex_irreflexive, lemma_lex_transitive, lemma_lex_trichotomy, lex_lt, KeyOrder};
use crate::lsm::compaction::CompactionTask;
use crate::text::{dec_digits, dec_padded, push_dec, push_dec_padded};
use crate::kvt::error::KeyValueError;
use crate::lsm::block_codec::inline_only;
use crate::lsm::sstable::{IndexParse, SSTable, SSTableMetadata};
use crate::lsm::table::{index_of_table, scan_blocks, scan_table_spec, table_image, table_metadata, TableScan, BLOOM_BITS_PER_KEY};
use crate::lsm::memtable::{
    entry_views, keys_sorted, lemma_total_size_concat, lemma_total_size_ge_elem, lemma_total_size_nonneg, total_size, Entry,
    EntryView,
};

verus! {

broadcast use {vstd::multiset::group_multiset_axioms, vstd::seq_lib::group_to_multiset_ensures};

/// `a` leaves a merge no later than `b`: smaller keys first and, for one key, the
/// newer (higher sequence) entry first.
pub open spec fn merge_le(a: EntryView, b: EntryView) -> bool {
    lex_lt(a.key, b.key) || (a.key == b.key && a.sequence >= b.sequence)
}

/// Entries in merge order.
pub open spec fn merge_sorted(s: Seq<EntryView>) -> bool {
    forall|i: int, j: int| 0 <= i < j < s.len() ==> merge_le(#[trigger] s[i], #[trigger] s[j])
}

/// Views of a list of runs.
pub open spec fn run_views(v: Seq<Vec<Entry>>) -> Seq<Seq<EntryView>> {
    v.map_values(|r: Vec<Entry>| entry_views(r@))
}

/// All entries of all runs, counted with multiplicity.
pub open spec fn runs_multiset(rv: Seq<Seq<EntryView>>) -> Multiset<EntryView>
    decreases rv.len(),
{
    if rv.len() == 0 {
        Multiset::empty()
    } else {
        runs_multiset(rv.drop_last()).add(rv.last().to_multiset())
    }
}

/// What is left of each run from its cursor on.
spec fn tails(rv: Seq<Seq<EntryView>>, pos: Seq<usize>) -> Seq<Seq<EntryView>> {
    Seq::new(rv.len(), |i: int| rv[i].subrange(pos[i] as int, rv[i].len() as int))
}

pub proof fn lemma_merge_le_total(a: EntryView, b: EntryView)
    ensures
        merge_le(a, b) || merge_le(b, a),
{
    lemma_lex_trichotomy(a.key, b.key);
}

pub proof fn lemma_merge_le_transitive(a: EntryView, b: EntryView, c: EntryView)
    requires
        merge_le(a, b),
        merge_le(b, c),
    ensures
        merge_le(a, c),
{
    if lex_lt(a.key, b.key) && lex_lt(b.key, c.key) {
        lemma_lex_transitive(a.key, b.key, c.key);
    }
}

/// Replacing one run by a run with one entry fewer takes that entry out of the whole.
proof fn lemma_runs_multiset_update(rv: Seq<Seq<EntryView>>, k: int, t: Seq<EntryView>, x: EntryView)
    requires
        0 <= k < rv.len(),
        rv[k].to_multiset() == t.to_multiset().insert(x),
    ensures
        runs_multiset(rv) == runs_multiset(rv.update(k, t)).insert(x),
    decreases rv.len(),
{
    let ru = rv.update(k, t);
    if k == rv.len() - 1 {
        assert(ru.drop_last() =~= rv.drop_last());
        assert(runs_multiset(rv) =~= runs_multiset(ru).insert(x));
    } else {
        assert(ru.drop_last() =~= rv.drop_last().update(k, t));
        lemma_runs_multiset_update(rv.drop_last(), k, t, x);
        assert(runs_multiset(rv) =~= runs_multiset(ru).insert(x));
    }
}

/// Runs that are all empty hold nothing.
proof fn lemma_runs_multiset_empty(rv: Seq<Seq<EntryView>>)
    requires
        forall|i: int| 0 <= i < rv.len() ==> (#[trigger] rv[i]).len() == 0,
    ensures
        runs_multiset(rv) =~= Multiset::<EntryView>::empty(),
    decreases rv.len(),
{
    if rv.len() > 0 {
        lemma_runs_multiset_empty(rv.drop_last());
        assert(rv.last().len() == 0);
        assert(rv.last().to_multiset().len() == 0);
    }
}

/// Whether entry `a` leaves a merge strictly before entry `b`.
fn precedes(a: &Entry, b: &Entry) -> (r: bool)
    ensures
        r == !merge_le(b@, a@),
{
    proof {
        lemma_lex_trichotomy(a@.key, b@.key);
        lemma_lex_irreflexive(a@.key);
        if lex_lt(a@.key, b@.key) && lex_lt(b@.key, a@.key) {
            lemma_lex_transitive(a@.key, b@.key, a@.key);
        }
    }
    match compare_keys(a.key.as_slice(), b.key.as_slice()) {
        KeyOrder::Less => true,
        KeyOrder::Greater => false,
        KeyOrder::Equal => a.sequence > b.sequence,
    }
}

/// Merges runs that are each in merge order into one run in merge order holding
/// every entry of every run.
pub fn merge_runs(runs: &Vec<Vec<Entry>>) -> (r: Vec<Entry>)
    requires
        forall|i: int| 0 <= i < runs@.len() ==> merge_sorted(#[trigger] entry_views(runs@[i]@)),
    ensures
        merge_sorted(entry_views(r@)),
        entry_views(r@).to_multiset() == runs_multiset(run_views(runs@)),
{
    let ghost rv = run_views(runs@);
    let mut pos: Vec<usize> = Vec::new();
    let mut i: usize = 0;
    while i < runs.len()
        invariant
            i <= runs@.len(),
            pos@.len() == i,
            forall|j: int| 0 <= j < i ==> pos@[j] == 0,
        decreases runs@.len() - i,
    {
        pos.push(0);
        i = i + 1;
    }
    assert(tails(rv, pos@) =~= rv) by {
        assert forall|j: int| 0 <= j < rv.len() implies tails(rv, pos@)[j] == rv[j] by {
            assert(rv[j] == entry_views(runs@[j]@));
            assert(rv[j].subrange(0, rv[j].len() as int) =~= rv[j]);
        }
    }
    let mut result: Vec<Entry> = Vec::new();
    let ghost total = runs_multiset(rv);
    assert(entry_views(result@).to_multiset().add(runs_multiset(tails(rv, pos@))) =~= total);
    loop
        invariant
            rv == run_views(runs@),
            total == runs_multiset(rv),
            pos@.len() == runs@.len(),
            forall|j: int| 0 <= j < runs@.len() ==> pos@[j] <= (#[trigger] runs@[j])@.len(),
            forall|j: int| 0 <= j < runs@.len() ==> merge_sorted(#[trigger] entry_views(runs@[j]@)),
            entry_views(result@).to_multiset().add(runs_multiset(tails(rv, pos@))) == total,
            merge_sorted(entry_views(result@)),
            result@.len() > 0 ==> forall|j: int|
                0 <= j < runs@.len() && pos@[j] < (#[trigger] runs@[j])@.len() ==> merge_le(
                    result@.last()@,
                    runs@[j]@[pos@[j] as int]@,
                ),
        decreases total.len() - result@.len(),
    {
        let mut best: usize = runs.len();
        let mut j: usize = 0;
        while j < runs.len()
            invariant
                pos@.len() == runs@.len(),
                forall|q: int| 0 <= q < runs@.len() ==> pos@[q] <= (#[trigger] runs@[q])@.len(),
                j <= runs@.len(),
                best == runs@.len() || (best < j && pos@[best as int] < runs@[best as int]@.len()),
                best == runs@.len() ==> forall|q: int| 0 <= q < j ==> pos@[q] == (#[trigger] runs@[q])@.len(),
                best < runs@.len() ==> forall|q: int|
                    0 <= q < j && pos@[q] < (#[trigger] runs@[q])@.len() ==> merge_le(
                        runs@[best as int]@[pos@[best as int] as int]@,
                        runs@[q]@[pos@[q] as int]@,
                    ),
            decreases runs@.len() - j,
        {
            if pos[j] < runs[j].len() {
                if best == runs.len() || precedes(&runs[j][pos[j]], &runs[best][pos[best]]) {
                    proof {
                        if best < runs@.len() {
                            let hb = runs@[best as int]@[pos@[best as int] as int]@;
                            let hj = runs@[j as int]@[pos@[j as int] as int]@;
                            lemma_merge_le_total(hb, hj);
                            assert forall|q: int|
                                0 <= q < j && pos@[q] < (#[trigger] runs@[q])@.len() implies merge_le(
                                hj,
                                runs@[q]@[pos@[q] as int]@,
                            ) by {
                                lemma_merge_le_transitive(hj, hb, runs@[q]@[pos@[q] as int]@);
                            }
                        }
                    }
                    best = j;
                }
            }
            j = j + 1;
        }
        if best == runs.len() {
            proof {
                assert forall|q: int| 0 <= q < rv.len() implies (#[trigger] tails(rv, pos@)[q]).len() == 0 by {
                    assert(rv[q] == entry_views(runs@[q]@));
                    assert(pos@[q] == runs@[q]@.len());
                }
                lemma_runs_multiset_empty(tails(rv, pos@));
                assert(entry_views(result@).to_multiset() =~= total);
            }
            return result;
        }
        let k = best;
        let p = pos[k];
        let len_k = runs[k].len();
        assert(p < len_k);
        let m = runs[k][p].duplicate();
        proof {
            let rk = rv[k as int];
            assert(rk == entry_views(runs@[k as int]@));
            assert(rk[p as int] == m@);
            let tk = rk.subrange(p as int, rk.len() as int);
            let tk2 = rk.subrange(p + 1, rk.len() as int);
            assert(tk.remove(0) =~= tk2);
            assert(tk.to_multiset() =~= tk2.to_multiset().insert(m@)) by {
                assert(tk.remove(0).to_multiset() == tk.to_multiset().remove(tk[0]));
                assert(tk.to_multiset().count(m@) > 0) by {
                    assert(tk.contains(m@)) by {
                        assert(tk[0] == m@);
                    }
                }
            }
            let pos2 = pos@.update(k as int, (p + 1) as usize);
            assert(tails(rv, pos2) =~= tails(rv, pos@).update(k as int, tk2)) by {
                assert forall|q: int| 0 <= q < rv.len() implies tails(rv, pos2)[q] == tails(rv, pos@).update(
                    k as int,
                    tk2,
                )[q] by {
                    if q == k {
                        assert(pos2[q] == p + 1);
                    } else {
                        assert(pos2[q] == pos@[q]);
                    }
                }
            }
            lemma_runs_multiset_update(tails(rv, pos@), k as int, tk2, m@);
            let ev = entry_views(result@);
            assert(entry_views(result@.push(m)) =~= ev.push(m@));
            assert(ev.push(m@).to_multiset() =~= ev.to_multiset().insert(m@));
            assert(ev.push(m@).to_multiset().add(runs_multiset(tails(rv, pos2))) =~= total);
            assert forall|a: int, b: int| 0 <= a < b < ev.push(m@).len() implies merge_le(
                #[trigger] ev.push(m@)[a],
                #[trigger] ev.push(m@)[b],
            ) by {
                if b == ev.len() {
                    assert(merge_le(ev.last(), m@)) by {
                        assert(result@.last()@ == ev.last());
                    }
                    if a < ev.len() - 1 {
                        lemma_merge_le_transitive(ev[a], ev.last(), m@);
                    }
                } else {
                    assert(ev.push(m@)[a] == ev[a]);
                    assert(ev.push(m@)[b] == ev[b]);
                }
            }
            assert(merge_sorted(entry_views(runs@[k as int]@)));
            if p + 1 < rk.len() {
                assert(merge_le(rk[p as int], rk[p + 1]));
            }
            assert(total.len() == ev.to_multiset().len() + runs_multiset(tails(rv, pos@)).len());
        }
        result.push(m);
        pos.set(k, p + 1);
    }
}


/// Entry `i` of a merged run survives compaction: it is the first (newest) entry of
/// its key and not a deletion.
pub open spec fn kept_at(m: Seq<EntryView>, i: int) -> bool {
    (i == 0 || m[i - 1].key != m[i].key) && m[i].value is Some
}

/// The survivors among the first `n` entries of a merged run, in order.
pub open spec fn kept_upto(m: Seq<EntryView>, n: int) -> Seq<EntryView>
    decreases n,
{
    if n <= 0 {
        Seq::empty()
    } else if kept_at(m, n - 1) {
        kept_upto(m, n - 1).push(m[n - 1])
    } else {
        kept_upto(m, n - 1)
    }
}

/// The survivors of a merged run.
pub open spec fn kept_entries(m: Seq<EntryView>) -> Seq<EntryView> {
    kept_upto(m, m.len() as int)
}

/// `x` is among `all` and no entry of its key in `all` has a higher sequence.
pub open spec fn newest_version(all: Multiset<EntryView>, x: EntryView) -> bool {
    &&& all.count(x) > 0
    &&& forall|y: EntryView| #[trigger] all.count(y) > 0 && y.key == x.key ==> y.sequence <= x.sequence
}

/// `x` is the only newest entry of its key in `all`.
pub open spec fn sole_newest_version(all: Multiset<EntryView>, x: EntryView) -> bool {
    &&& newest_version(all, x)
    &&& forall|y: EntryView| #[trigger] all.count(y) > 0 && y.key == x.key && y.sequence == x.sequence ==> y == x
}

/// In a merged run, the first entry of a key is at least as new as every entry of that key.
proof fn lemma_first_of_key_newest(m: Seq<EntryView>, i: int, j: int)
    requires
        merge_sorted(m),
        0 <= i < m.len(),
        0 <= j < m.len(),
        i == 0 || m[i - 1].key != m[i].key,
        m[j].key == m[i].key,
    ensures
        i <= j,
        m[j].sequence <= m[i].sequence,
{
    if j < i {
        assert(merge_le(m[i - 1], m[i]));
        if j < i - 1 {
            assert(merge_le(m[j], m[i - 1]));
        }
        assert(lex_lt(m[i - 1].key, m[i].key));
        assert(lex_lt(m[j].key, m[i - 1].key) || m[j].key == m[i - 1].key);
        if lex_lt(m[j].key, m[i - 1].key) {
            lemma_lex_transitive(m[i].key, m[i - 1].key, m[i].key);
        }
        lemma_lex_irreflexive(m[i].key);
    } else if j > i {
        assert(merge_le(m[i], m[j]));
        lemma_lex_irreflexive(m[i].key);
    }
}

/// The first entry of the key of entry `j`, found by walking back from `j`.
proof fn lemma_first_of_key(m: Seq<EntryView>, j: int) -> (i: int)
    requires
        0 <= j < m.len(),
    ensures
        0 <= i <= j,
        m[i].key == m[j].key,
        i == 0 || m[i - 1].key != m[i].key,
    decreases j,
{
    if j == 0 || m[j - 1].key != m[j].key {
        j
    } else {
        lemma_first_of_key(m, j - 1)
    }
}

/// What the survivors of a prefix are, and that their keys strictly increase.
proof fn lemma_kept_upto(m: Seq<EntryView>, n: int)
    requires
        merge_sorted(m),
        0 <= n <= m.len(),
    ensures
        forall|x: EntryView| #[trigger] kept_upto(m, n).contains(x) <==> exists|i: int|
            0 <= i < n && kept_at(m, i) && #[trigger] m[i] == x,
        keys_sorted(kept_upto(m, n)),
    decreases n,
{
    if n > 0 {
        lemma_kept_upto(m, n - 1);
        let prev = kept_upto(m, n - 1);
        if kept_at(m, n - 1) {
            let e = m[n - 1];
            assert forall|x: EntryView| #[trigger] prev.push(e).contains(x) <==> exists|i: int|
                0 <= i < n && kept_at(m, i) && #[trigger] m[i] == x by {
                if prev.push(e).contains(x) {
                    let t = choose|t: int| 0 <= t < prev.push(e).len() && prev.push(e)[t] == x;
                    if t < prev.len() {
                        assert(prev.contains(x));
                    } else {
                        assert(m[n - 1] == x);
                    }
                }
                if exists|i: int| 0 <= i < n && kept_at(m, i) && #[trigger] m[i] == x {
                    let i = choose|i: int| 0 <= i < n && kept_at(m, i) && #[trigger] m[i] == x;
                    if i < n - 1 {
                        assert(prev.contains(x));
                        let t = choose|t: int| 0 <= t < prev.len() && prev[t] == x;
                        assert(prev.push(e)[t] == x);
                    } else {
                        assert(prev.push(e)[prev.len() as int] == x);
                    }
                }
            }
            assert forall|a: int, b: int| 0 <= a < b < prev.push(e).len() implies lex_lt(
                #[trigger] prev.push(e)[a].key,
                #[trigger] prev.push(e)[b].key,
            ) by {
                if b == prev.len() {
                    let x = prev[a];
                    assert(prev.contains(x));
                    let i = choose|i: int| 0 <= i < n - 1 && kept_at(m, i) && #[trigger] m[i] == x;
                    assert(m[i].key != e.key) by {
                        if m[i].key == e.key {
                            lemma_first_of_key_newest(m, n - 1, i);
                        }
                    }
                    assert(merge_le(m[i], m[n - 1]));
                } else {
                    assert(prev.push(e)[a] == prev[a]);
                    assert(prev.push(e)[b] == prev[b]);
                }
            }
        } else {
            assert forall|x: EntryView| #[trigger] prev.contains(x) <==> exists|i: int|
                0 <= i < n && kept_at(m, i) && #[trigger] m[i] == x by {
                if exists|i: int| 0 <= i < n && kept_at(m, i) && #[trigger] m[i] == x {
                    let i = choose|i: int| 0 <= i < n && kept_at(m, i) && #[trigger] m[i] == x;
                    assert(i < n - 1);
                }
            }
        }
    }
}

/// What compaction keeps of a merged run: keys in strictly increasing order, each
/// kept entry a put that no entry of its key outranks, every put that alone is the
/// newest of its key, and nothing of a key whose sole newest entry is a deletion.
pub proof fn lemma_compaction_keeps_newest(m: Seq<EntryView>)
    requires
        merge_sorted(m),
    ensures
        keys_sorted(kept_entries(m)),
        forall|x: EntryView| #[trigger] kept_entries(m).contains(x) ==> newest_version(m.to_multiset(), x)
            && x.value is Some,
        forall|x: EntryView| sole_newest_version(m.to_multiset(), x) && x.value is Some
            ==> #[trigger] kept_entries(m).contains(x),
        forall|x: EntryView, y: EntryView|
            sole_newest_version(m.to_multiset(), x) && x.value is None && #[trigger] kept_entries(m).contains(y)
                ==> y.key != #[trigger] x.key,
{
    let all = m.to_multiset();
    lemma_kept_upto(m, m.len() as int);
    assert forall|x: EntryView| #[trigger] kept_entries(m).contains(x) implies newest_version(all, x)
        && x.value is Some by {
        let i = choose|i: int| 0 <= i < m.len() && kept_at(m, i) && #[trigger] m[i] == x;
        assert(m.contains(x));
        assert forall|y: EntryView| #[trigger] all.count(y) > 0 && y.key == x.key implies y.sequence
            <= x.sequence by {
            assert(m.contains(y));
            let j = choose|j: int| 0 <= j < m.len() && m[j] == y;
            lemma_first_of_key_newest(m, i, j);
        }
    }
    assert forall|x: EntryView| sole_newest_version(all, x) && x.value is Some implies #[trigger] kept_entries(
        m,
    ).contains(x) by {
        assert(m.contains(x));
        let j = choose|j: int| 0 <= j < m.len() && m[j] == x;
        let i = lemma_first_of_key(m, j);
        lemma_first_of_key_newest(m, i, j);
        assert(m.contains(m[i]));
        assert(all.count(m[i]) > 0);
        assert(m[i] == x);
        assert(kept_at(m, i));
    }
    assert forall|x: EntryView, y: EntryView|
        sole_newest_version(all, x) && x.value is None && #[trigger] kept_entries(m).contains(y) implies y.key
        != #[trigger] x.key by {
        if y.key == x.key {
            assert(newest_version(all, y));
            assert(all.count(y) > 0);
        }
    }
}

/// Keeps, of a run in merge order, the first entry of each key unless it is a deletion.
pub fn deduplicate_and_filter(entries: Vec<Entry>) -> (r: Vec<Entry>)
    ensures
        entry_views(r@) == kept_entries(entry_views(entries@)),
{
    let ghost m = entry_views(entries@);
    let mut result: Vec<Entry> = Vec::new();
    let mut i: usize = 0;
    while i < entries.len()
        invariant
            m == entry_views(entries@),
            i <= entries@.len(),
            entry_views(result@) == kept_upto(m, i as int),
        decreases entries@.len() - i,
    {
        let first_of_key = i == 0 || !key_eq(entries[i - 1].key.as_slice(), entries[i].key.as_slice());
        assert(m[i as int] == entries@[i as int]@);
        if i > 0 {
            assert(m[i - 1] == entries@[i - 1]@);
        }
        if first_of_key && entries[i].value.is_some() {
            let e = entries[i].duplicate();
            assert(entry_views(result@.push(e)) =~= entry_views(result@).push(e@));
            result.push(e);
        }
        i = i + 1;
    }
    result
}


/// Greedy cut of the first `n` entries into batches of at most `limit` bytes: the
/// finished batches, the open batch and the open batch's size. An entry that does not
/// fit closes the open batch, unless that batch is empty.
pub open spec fn cut_upto(s: Seq<EntryView>, limit: int, n: int) -> (Seq<Seq<EntryView>>, Seq<EntryView>, int)
    decreases n,
{
    if n <= 0 {
        (Seq::empty(), Seq::empty(), 0)
    } else {
        let c = cut_upto(s, limit, n - 1);
        let e = s[n - 1];
        if c.2 + e.size() > limit && c.1.len() > 0 {
            (c.0.push(c.1), seq![e], e.size())
        } else {
            (c.0, c.1.push(e), c.2 + e.size())
        }
    }
}

/// The batches that a run of entries is cut into, the open batch included when it
/// holds anything.
pub open spec fn cut_batches(s: Seq<EntryView>, limit: int) -> Seq<Seq<EntryView>> {
    let c = cut_upto(s, limit, s.len() as int);
    if c.1.len() > 0 {
        c.0.push(c.1)
    } else {
        c.0
    }
}

/// A batch as cut: not empty, and within the limit unless it is a single entry.
pub open spec fn batch_ok(b: Seq<EntryView>, limit: int) -> bool {
    b.len() > 0 && (b.len() > 1 ==> total_size(b) <= limit)
}

proof fn lemma_cut_upto(s: Seq<EntryView>, limit: int, n: int)
    requires
        0 <= n <= s.len(),
    ensures
        cut_upto(s, limit, n).0.flatten() + cut_upto(s, limit, n).1 == s.take(n),
        forall|k: int| 0 <= k < cut_upto(s, limit, n).0.len() ==> batch_ok(#[trigger] cut_upto(s, limit, n).0[k], limit),
        cut_upto(s, limit, n).2 == total_size(cut_upto(s, limit, n).1),
        cut_upto(s, limit, n).1.len() > 1 ==> cut_upto(s, limit, n).2 <= limit,
        n > 0 ==> cut_upto(s, limit, n).1.len() > 0,
    decreases n,
{
    if n == 0 {
        assert(s.take(0) =~= Seq::<EntryView>::empty());
        assert(Seq::<Seq<EntryView>>::empty().flatten() =~= Seq::<EntryView>::empty());
    } else {
        lemma_cut_upto(s, limit, n - 1);
        let c = cut_upto(s, limit, n - 1);
        let e = s[n - 1];
        assert(s.take(n) =~= s.take(n - 1).push(e));
        assert(seq![e].drop_last() =~= Seq::<EntryView>::empty());
        assert(seq![e].last() == e);
        assert(total_size(seq![e].drop_last()) == 0);
        assert(total_size(seq![e]) == e.size());
        if c.2 + e.size() > limit && c.1.len() > 0 {
            c.0.lemma_flatten_push(c.1);
            assert(c.0.push(c.1).flatten() + seq![e] =~= s.take(n));
            assert forall|k: int| 0 <= k < c.0.push(c.1).len() implies batch_ok(#[trigger] c.0.push(c.1)[k], limit) by {
                if k < c.0.len() {
                    assert(c.0.push(c.1)[k] == c.0[k]);
                }
            }
        } else {
            assert(c.0.flatten() + c.1.push(e) =~= s.take(n));
            assert(c.1.push(e).drop_last() =~= c.1);
        }
    }
}

/// Cutting a run into batches loses and reorders nothing, and each batch is within
/// the limit unless it is a single entry.
pub proof fn lemma_cut_batches(s: Seq<EntryView>, limit: int)
    ensures
        cut_batches(s, limit).flatten() == s,
        forall|k: int| 0 <= k < cut_batches(s, limit).len() ==> batch_ok(#[trigger] cut_batches(s, limit)[k], limit),
{
    lemma_cut_upto(s, limit, s.len() as int);
    let c = cut_upto(s, limit, s.len() as int);
    assert(s.take(s.len() as int) =~= s);
    if c.1.len() > 0 {
        c.0.lemma_flatten_push(c.1);
        assert forall|k: int| 0 <= k < c.0.push(c.1).len() implies batch_ok(#[trigger] c.0.push(c.1)[k], limit) by {
            if k < c.0.len() {
                assert(c.0.push(c.1)[k] == c.0[k]);
            } else {
                assert(c.1.len() > 1 ==> total_size(c.1) <= limit);
            }
        }
    } else {
        assert(c.0.flatten() + c.1 =~= c.0.flatten());
    }
}

/// The total size of a prefix is at most that of the whole.
proof fn lemma_total_size_take(s: Seq<EntryView>, n: int)
    requires
        0 <= n <= s.len(),
    ensures
        0 <= total_size(s.take(n)) <= total_size(s),
{
    assert(s =~= s.take(n) + s.skip(n));
    lemma_total_size_concat(s.take(n), s.skip(n));
    lemma_total_size_nonneg(s.take(n));
    lemma_total_size_nonneg(s.skip(n));
}

/// Cuts a run into batches of at most `max_size` bytes each, as output tables are cut.
pub fn split_into_batches(entries: Vec<Entry>, max_size: usize) -> (r: Vec<Vec<Entry>>)
    requires
        total_size(entry_views(entries@)) <= usize::MAX,
    ensures
        run_views(r@) == cut_batches(entry_views(entries@), max_size as int),
{
    let ghost s = entry_views(entries@);
    let mut result: Vec<Vec<Entry>> = Vec::new();
    let mut current: Vec<Entry> = Vec::new();
    let mut current_size: usize = 0;
    let mut i: usize = 0;
    while i < entries.len()
        invariant
            s == entry_views(entries@),
            total_size(s) <= usize::MAX,
            i <= entries@.len(),
            run_views(result@) == cut_upto(s, max_size as int, i as int).0,
            entry_views(current@) == cut_upto(s, max_size as int, i as int).1,
            current_size == cut_upto(s, max_size as int, i as int).2,
        decreases entries@.len() - i,
    {
        proof {
            lemma_cut_upto(s, max_size as int, i as int);
            lemma_total_size_take(s, i + 1);
            assert(s.take(i + 1) =~= s.take(i as int).push(s[i as int]));
            assert(s.take(i as int).push(s[i as int]).drop_last() =~= s.take(i as int));
            assert(total_size(s.take(i + 1)) == total_size(s.take(i as int)) + s[i as int].size());
            lemma_total_size_concat(cut_upto(s, max_size as int, i as int).0.flatten(), entry_views(current@));
            lemma_total_size_nonneg(cut_upto(s, max_size as int, i as int).0.flatten());
            assert(s[i as int] == entries@[i as int]@);
            lemma_total_size_ge_elem(s, i as int);
            assert(current_size + s[i as int].size() <= usize::MAX);
        }
        let e = entries[i].duplicate();
        let entry_size = e.size();
        if current_size + entry_size > max_size && current.len() > 0 {
            let ghost cv = entry_views(current@);
            assert(run_views(result@.push(current)) =~= run_views(result@).push(cv));
            result.push(current);
            current = Vec::new();
            assert(entry_views(current@.push(e)) =~= seq![e@]);
            current.push(e);
            current_size = entry_size;
        } else {
            assert(entry_views(current@.push(e)) =~= entry_views(current@).push(e@));
            current.push(e);
            current_size = current_size + entry_size;
        }
        i = i + 1;
    }
    if current.len() > 0 {
        let ghost cv = entry_views(current@);
        assert(run_views(result@.push(current)) =~= run_views(result@).push(cv));
        result.push(current);
    }
    result
}


/// A list of non-empty lists holds at least as many items as lists.
proof fn lemma_flatten_len_ge_count(b: Seq<Seq<EntryView>>)
    requires
        forall|k: int| 0 <= k < b.len() ==> (#[trigger] b[k]).len() > 0,
    ensures
        b.flatten().len() >= b.len(),
    decreases b.len(),
{
    if b.len() > 0 {
        assert(b[0].len() > 0);
        assert forall|k: int| 0 <= k < b.drop_first().len() implies (#[trigger] b.drop_first()[k]).len() > 0 by {
            assert(b.drop_first()[k] == b[k + 1]);
        }
        lemma_flatten_len_ge_count(b.drop_first());
    }
}

/// The entries of all runs, counted with multiplicity, are those of the runs laid end to end.
proof fn lemma_runs_multiset_flatten(rv: Seq<Seq<EntryView>>)
    ensures
        runs_multiset(rv) =~= rv.flatten().to_multiset(),
    decreases rv.len(),
{
    rv.lemma_flatten_and_flatten_alt_are_equivalent();
    if rv.len() > 0 {
        lemma_runs_multiset_flatten(rv.drop_last());
        rv.drop_last().lemma_flatten_and_flatten_alt_are_equivalent();
        vstd::seq_lib::lemma_multiset_commutative(rv.drop_last().flatten_alt(), rv.last());
    } else {
        assert(rv.flatten().to_multiset() =~= Multiset::<EntryView>::empty()) by {
            assert(rv.flatten() =~= Seq::<EntryView>::empty());
        }
    }
}

/// Removing one entry takes its size off the total.
proof fn lemma_total_size_remove(s: Seq<EntryView>, i: int)
    requires
        0 <= i < s.len(),
    ensures
        total_size(s) == total_size(s.remove(i)) + s[i].size(),
{
    let pre = s.subrange(0, i);
    let post = s.subrange(i + 1, s.len() as int);
    assert(s =~= pre + seq![s[i]] + post);
    assert(s.remove(i) =~= pre + post);
    lemma_total_size_concat(pre + seq![s[i]], post);
    lemma_total_size_concat(pre, seq![s[i]]);
    lemma_total_size_concat(pre, post);
    assert(seq![s[i]].drop_last() =~= Seq::<EntryView>::empty());
    assert(seq![s[i]].last() == s[i]);
    assert(total_size(seq![s[i]].drop_last()) == 0);
}

/// Two runs holding the same entries have the same total size.
proof fn lemma_total_size_same_entries(a: Seq<EntryView>, b: Seq<EntryView>)
    requires
        a.to_multiset() == b.to_multiset(),
    ensures
        total_size(a) == total_size(b),
    decreases a.len(),
{
    if a.len() == 0 {
        assert(b.to_multiset().len() == 0);
        assert(b =~= Seq::<EntryView>::empty());
    } else {
        let x = a.last();
        assert(a.drop_last().push(x) =~= a);
        assert(a.to_multiset() =~= a.drop_last().to_multiset().insert(x));
        assert(b.to_multiset().count(x) > 0);
        assert(b.contains(x));
        let j = choose|j: int| 0 <= j < b.len() && b[j] == x;
        assert(b.remove(j).to_multiset() == b.to_multiset().remove(b[j]));
        assert(b.remove(j).to_multiset() =~= a.drop_last().to_multiset());
        lemma_total_size_same_entries(a.drop_last(), b.remove(j));
        lemma_total_size_remove(b, j);
    }
}

/// The survivors of a prefix are no more, and no larger in total, than the prefix.
proof fn lemma_kept_upto_size(m: Seq<EntryView>, n: int)
    requires
        0 <= n <= m.len(),
    ensures
        kept_upto(m, n).len() <= n,
        0 <= total_size(kept_upto(m, n)) <= total_size(m.take(n)),
    decreases n,
{
    if n == 0 {
        assert(m.take(0) =~= Seq::<EntryView>::empty());
    } else {
        lemma_kept_upto_size(m, n - 1);
        assert(m.take(n) =~= m.take(n - 1).push(m[n - 1]));
        assert(m.take(n - 1).push(m[n - 1]).drop_last() =~= m.take(n - 1));
        assert(m[n - 1].size() >= 0);
        if kept_at(m, n - 1) {
            assert(kept_upto(m, n - 1).push(m[n - 1]).drop_last() =~= kept_upto(m, n - 1));
        }
    }
}

/// Path of the file of table `file_number` in directory `base_path`:
/// the number in at least six digits, with the extension `.sst`.
pub fn sstable_path(base_path: &str, file_number: u64) -> (r: String)
    ensures
        r@ == base_path@ + seq!['/'] + dec_padded(file_number, 6) + seq!['.', 's', 's', 't'],
{
    let mut p = String::new();
    p.append(base_path);
    proof {
        reveal_strlit("/");
        reveal_strlit(".sst");
    }
    p.append("/");
    push_dec_padded(&mut p, file_number, 6);
    p.append(".sst");
    assert(p@ =~= base_path@ + seq!['/'] + dec_padded(file_number, 6) + seq!['.', 's', 's', 't']);
    p
}

/// One table written by a compaction: its file number, level and entries.
pub struct CompactionOutput {
    pub file_number: u64,
    pub level: usize,
    pub entries: Vec<Entry>,
}

/// The entries of the outputs of a compaction, table after table.
pub open spec fn output_entries(outs: Seq<CompactionOutput>) -> Seq<EntryView> {
    outs.map_values(|o: CompactionOutput| entry_views(o.entries@)).flatten()
}

/// Carries out compactions for tables stored under `base_path`, cutting outputs at
/// about `block_size * 1024` bytes.
pub struct CompactionExecutor {
    pub base_path: String,
    pub block_size: usize,
}

impl CompactionExecutor {
    pub fn new(base_path: String, block_size: usize) -> (r: Self)
        ensures
            r.base_path@ == base_path@,
            r.block_size == block_size,
    {
        CompactionExecutor { base_path, block_size }
    }

    /// Bytes after which an output table is closed.
    pub open spec fn max_table_size(&self) -> int {
        self.block_size * 1024
    }

    /// Path of the file of table `file_number`.
    pub fn table_path(&self, file_number: u64) -> (r: String)
        ensures
            r@ == self.base_path@ + seq!['/'] + dec_padded(file_number, 6) + seq!['.', 's', 's', 't'],
    {
        sstable_path(self.base_path.as_str(), file_number)
    }

    /// Makes the file image and metadata of output table `file_number` at `level`
    /// holding `entries`.
    pub fn write_sstable(&self, entries: Vec<Entry>, file_number: u64, level: usize) -> (r: Result<
        (Vec<u8>, SSTableMetadata),
        KeyValueError,
    >)
        requires
            inline_only(entry_views(entries@)),
            total_size(entry_views(entries@)) <= usize::MAX,
            entries@.len() * BLOOM_BITS_PER_KEY + 7 <= usize::MAX,
        ensures
            match r {
                Ok((bytes, meta)) => entries@.len() > 0 && bytes@ == table_image(entry_views(entries@), self.block_size as int)
                    && meta@ == table_metadata(entry_views(entries@), file_number, level, bytes@.len(), meta.created_at),
                Err(e) => entries@.len() == 0 && e.is_storage_corruption("Cannot create SSTable from empty entries"@),
            },
    {
        match SSTable::create(entries, file_number, level, self.block_size) {
            Ok(t) => Ok(t),
            Err(e) => Err(KeyValueError::StorageCorruption(e.to_string())),
        }
    }

    /// Reads the entries of table `file_number` from its file `data`.
    pub fn load_sstable_entries(&self, file_number: u64, data: &[u8]) -> (r: Result<Vec<Entry>, KeyValueError>)
        requires
            !(scan_table_spec(data@) is Panics),
        ensures
            match index_of_table(data@) {
                IndexParse::Failed(m) => r matches Err(e) && e.is_storage_corruption(
                    "Failed to create SSTable iterator for "@ + dec_digits(file_number) + ": "@ + m,
                ),
                IndexParse::Parsed(s) => match (r, scan_blocks(data@, s, s.len() as int)) {
                    (Ok(v), TableScan::Entries(es)) => entry_views(v@) == es,
                    (Err(e), TableScan::Failed(m)) => e.is_storage_corruption(
                        "Failed to read entry from SSTable "@ + dec_digits(file_number) + ": "@ + m,
                    ),
                    _ => false,
                },
                IndexParse::Overrun => false,
            },
    {
        proof {
            reveal_strlit("Failed to create SSTable iterator for ");
            reveal_strlit("Failed to read entry from SSTable ");
            reveal_strlit(": ");
        }
        let it = match SSTable::iter(data) {
            Ok(it) => it,
            Err(e) => {
                let mut m = String::new();
                m.append("Failed to create SSTable iterator for ");
                push_dec(&mut m, file_number);
                m.append(": ");
                m.append(e.message.as_str());
                assert(m@ =~= "Failed to create SSTable iterator for "@ + dec_digits(file_number) + ": "@ + e.text());
                return Err(KeyValueError::StorageCorruption(m));
            },
        };
        match it.collect_entries() {
            Ok(v) => Ok(v),
            Err(e) => {
                let mut m = String::new();
                m.append("Failed to read entry from SSTable ");
                push_dec(&mut m, file_number);
                m.append(": ");
                m.append(e.message.as_str());
                assert(m@ =~= "Failed to read entry from SSTable "@ + dec_digits(file_number) + ": "@ + e.text());
                Err(KeyValueError::StorageCorruption(m))
            },
        }
    }

    /// Compacts the entries of the task's tables, `runs` holding each table's entries
    /// in order: merges them, keeps the newest entry of each key unless it is a
    /// deletion, and cuts the result into output tables for the target level, numbered
    /// from `next_file_number` on.
    pub fn execute(&self, task: &CompactionTask, runs: &Vec<Vec<Entry>>, next_file_number: &mut u64) -> (r: Vec<CompactionOutput>)
        requires
            forall|i: int| 0 <= i < runs@.len() ==> merge_sorted(#[trigger] entry_views(runs@[i]@)),
            self.block_size * 1024 <= usize::MAX,
            total_size(run_views(runs@).flatten()) <= usize::MAX,
            *old(next_file_number) + run_views(runs@).flatten().len() <= u64::MAX,
        ensures
            *final(next_file_number) == *old(next_file_number) + r@.len(),
            forall|k: int| 0 <= k < r@.len() ==> (#[trigger] r@[k]).file_number == *old(next_file_number) + k
                && r@[k].level == task.target_level
                && batch_ok(entry_views(r@[k].entries@), self.max_table_size()),
            keys_sorted(output_entries(r@)),
            forall|x: EntryView| #[trigger] output_entries(r@).contains(x) ==> newest_version(
                runs_multiset(run_views(runs@)),
                x,
            ) && x.value is Some,
            forall|x: EntryView| sole_newest_version(runs_multiset(run_views(runs@)), x) && x.value is Some
                ==> #[trigger] output_entries(r@).contains(x),
            forall|x: EntryView, y: EntryView|
                sole_newest_version(runs_multiset(run_views(runs@)), x) && x.value is None
                    && #[trigger] output_entries(r@).contains(y) ==> y.key != #[trigger] x.key,
    {
        let merged = merge_runs(runs);
        let ghost m = entry_views(merged@);
        let kept = deduplicate_and_filter(merged);
        proof {
            lemma_compaction_keeps_newest(m);
            lemma_runs_multiset_flatten(run_views(runs@));
            lemma_total_size_same_entries(m, run_views(runs@).flatten());
            lemma_kept_upto_size(m, m.len() as int);
            assert(m.take(m.len() as int) =~= m);
            assert(m.len() == run_views(runs@).flatten().len()) by {
                assert(m.to_multiset().len() == m.len());
                assert(run_views(runs@).flatten().to_multiset().len() == run_views(runs@).flatten().len());
            }
        }
        let max_size = self.block_size * 1024;
        let batches = split_into_batches(kept, max_size);
        let ghost bv = run_views(batches@);
        proof {
            lemma_cut_batches(kept_entries(m), max_size as int);
            assert forall|k: int| 0 <= k < bv.len() implies (#[trigger] bv[k]).len() > 0 by {
                assert(batch_ok(bv[k], max_size as int));
            }
            lemma_flatten_len_ge_count(bv);
        }
        let mut result: Vec<CompactionOutput> = Vec::new();
        let mut batches = batches;
        let n = batches.len();
        let ghost start = *next_file_number;
        let mut k: usize = 0;
        while k < n
            invariant
                n == bv.len(),
                batches@.len() == n,
                forall|q: int| k <= q < n ==> entry_views((#[trigger] batches@[q])@) == bv[q],
                k <= n,
                result@.len() == k,
                start + n <= u64::MAX,
                *next_file_number == start + k,
                forall|q: int| 0 <= q < k ==> (#[trigger] result@[q]).file_number == start + q
                    && result@[q].level == task.target_level
                    && entry_views(result@[q].entries@) == bv[q],
            decreases n - k,
        {
            let mut entries: Vec<Entry> = Vec::new();
            std::mem::swap(&mut entries, &mut batches[k]);
            result.push(CompactionOutput { file_number: *next_file_number, level: task.target_level, entries });
            *next_file_number = *next_file_number + 1;
            k = k + 1;
        }
        proof {
            assert(result@.map_values(|o: CompactionOutput| entry_views(o.entries@)) =~= bv);
        }
        result
    }
}

} // verus!
