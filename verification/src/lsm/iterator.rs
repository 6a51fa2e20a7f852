//! Range-scan iterator over the live key-value pairs of the LSM tree.
use vstd::prelude::*;
use crate::keyorder::{key_less, lemma_lex_irreflexive, lemma_lex_le_transitive, lemma_lex_trichotomy, lex_le, lex_lt};
use crate::kvt::error::KeyValueResult;
use crate::lsm::memtable::{copy_bytes, entry_views, keys_sorted, Entry, EntryView, ValueLocation, ValueView};

verus! {

broadcast use vstd::seq_lib::group_seq_properties;

/// A key-value pair as mathematical byte strings.
pub type PairView = (Seq<u8>, Seq<u8>);

/// Views of a sequence of key-value pairs.
pub open spec fn pair_views(v: Seq<(Vec<u8>, Vec<u8>)>) -> Seq<PairView> {
    v.map_values(|p: (Vec<u8>, Vec<u8>)| (p.0@, p.1@))
}

/// The key-value pair an entry contributes to a scan: only entries with an inline
/// value do; deletions and blob references do not.
pub open spec fn live_pair(e: EntryView) -> Option<PairView> {
    match e.value {
        Some(ValueView::Inline(d)) => Some((e.key, d)),
        _ => None,
    }
}

/// The live pairs of a sequence of entries, in order.
pub open spec fn live_pairs(s: Seq<EntryView>) -> Seq<PairView> {
    s.filter_map(|e: EntryView| live_pair(e))
}

/// Keys never decrease along the sequence.
pub open spec fn pairs_sorted(s: Seq<PairView>) -> bool {
    forall|i: int, j: int| 0 <= i < j < s.len() ==> lex_le(#[trigger] s[i].0, #[trigger] s[j].0)
}

/// Pairs whose key is `k`.
pub open spec fn with_key(k: Seq<u8>) -> spec_fn(PairView) -> bool {
    |p: PairView| p.0 == k
}

/// `r` is `s` sorted by key, pairs with equal keys keeping their order in `s`.
pub open spec fn is_stable_sort_of(r: Seq<PairView>, s: Seq<PairView>) -> bool {
    &&& pairs_sorted(r)
    &&& forall|k: Seq<u8>| #[trigger] r.filter(with_key(k)) == s.filter(with_key(k))
}

/// Number of leading pairs whose key sorts strictly before `key`.
pub open spec fn lower_bound(s: Seq<PairView>, key: Seq<u8>, i: int) -> bool {
    &&& 0 <= i <= s.len()
    &&& forall|j: int| 0 <= j < i ==> lex_lt(#[trigger] s[j].0, key)
    &&& forall|j: int| i <= j < s.len() ==> !lex_lt(#[trigger] s[j].0, key)
}

proof fn lemma_filter_single(x: PairView, p: spec_fn(PairView) -> bool)
    ensures
        seq![x].filter(p) == if p(x) { seq![x] } else { Seq::<PairView>::empty() },
{
    Seq::<PairView>::empty().lemma_filter_push(x, p);
    assert(Seq::<PairView>::empty().push(x) =~= seq![x]);
    reveal(Seq::filter);
    assert(Seq::<PairView>::empty().filter(p) =~= Seq::<PairView>::empty());
}

/// Inserting `x` after every pair whose key is not greater keeps a stable sort stable.
proof fn lemma_stable_insert(r: Seq<PairView>, s: Seq<PairView>, pos: int, x: PairView)
    requires
        is_stable_sort_of(r, s),
        0 <= pos <= r.len(),
        forall|j: int| 0 <= j < pos ==> lex_le(#[trigger] r[j].0, x.0),
        forall|j: int| pos <= j < r.len() ==> lex_lt(x.0, #[trigger] r[j].0),
    ensures
        is_stable_sort_of(r.insert(pos, x), s.push(x)),
{
    let t = r.insert(pos, x);
    let pre = r.subrange(0, pos);
    let post = r.subrange(pos, r.len() as int);
    assert(r =~= pre + post);
    assert(t =~= pre + seq![x] + post);
    assert forall|a: int, b: int| 0 <= a < b < t.len() implies lex_le(#[trigger] t[a].0, #[trigger] t[b].0) by {
        if b < pos {
            assert(t[a] == r[a] && t[b] == r[b]);
        } else if b == pos {
            assert(t[a] == r[a]);
        } else if a < pos {
            assert(t[a] == r[a] && t[b] == r[b - 1]);
            lemma_lex_le_transitive(r[a].0, x.0, r[b - 1].0);
        } else if a == pos {
            assert(t[b] == r[b - 1]);
        } else {
            assert(t[a] == r[a - 1] && t[b] == r[b - 1]);
        }
    }
    assert forall|k: Seq<u8>| #[trigger] t.filter(with_key(k)) == s.push(x).filter(with_key(k)) by {
        let p = with_key(k);
        Seq::filter_distributes_over_add(pre + seq![x], post, p);
        Seq::filter_distributes_over_add(pre, seq![x], p);
        Seq::filter_distributes_over_add(pre, post, p);
        lemma_filter_single(x, p);
        s.lemma_filter_push(x, p);
        assert(r.filter(p) == s.filter(p));
        if k == x.0 {
            assert forall|j: int| 0 <= j < post.len() implies !p(#[trigger] post[j]) by {
                assert(post[j] == r[pos + j]);
                lemma_lex_irreflexive(k);
            }
            post.lemma_all_neg_filter_empty(p);
            assert(post.filter(p) =~= Seq::<PairView>::empty());
            assert(pre.filter(p) + post.filter(p) =~= pre.filter(p));
            assert(pre.filter(p) + seq![x] =~= pre.filter(p).push(x));
        } else {
            assert(pre.filter(p) + Seq::<PairView>::empty() =~= pre.filter(p));
        }
    }
}

/// Position of the first pair whose key sorts after `key` (all before are not greater).
fn upper_position(v: &Vec<(Vec<u8>, Vec<u8>)>, key: &[u8]) -> (r: usize)
    requires
        pairs_sorted(pair_views(v@)),
    ensures
        r <= v@.len(),
        forall|j: int| 0 <= j < r ==> lex_le(#[trigger] pair_views(v@)[j].0, key@),
        forall|j: int| r <= j < v@.len() ==> lex_lt(key@, #[trigger] pair_views(v@)[j].0),
{
    let ghost s = pair_views(v@);
    let mut lo: usize = 0;
    let mut hi: usize = v.len();
    while lo < hi
        invariant
            s == pair_views(v@),
            s.len() == v@.len(),
            pairs_sorted(s),
            lo <= hi <= s.len(),
            forall|j: int| 0 <= j < lo ==> lex_le(#[trigger] s[j].0, key@),
            forall|j: int| hi <= j < s.len() ==> lex_lt(key@, #[trigger] s[j].0),
        decreases hi - lo,
    {
        let mid = lo + (hi - lo) / 2;
        assert(s[mid as int].0 == v@[mid as int].0@);
        if key_less(key, v[mid].0.as_slice()) {
            assert forall|j: int| mid <= j < s.len() implies lex_lt(key@, #[trigger] s[j].0) by {
                if j > mid {
                    lemma_lex_le_transitive(key@, s[mid as int].0, s[j].0);
                }
            }
            hi = mid;
        } else {
            proof {
                lemma_lex_trichotomy(key@, s[mid as int].0);
            }
            assert forall|j: int| 0 <= j < mid + 1 implies lex_le(#[trigger] s[j].0, key@) by {
                if j < mid {
                    lemma_lex_le_transitive(s[j].0, s[mid as int].0, key@);
                }
            }
            lo = mid + 1;
        }
    }
    lo
}

/// Reverses a vector of pairs.
fn reverse_pairs(v: Vec<(Vec<u8>, Vec<u8>)>) -> (r: Vec<(Vec<u8>, Vec<u8>)>)
    ensures
        pair_views(r@) == pair_views(v@).reverse(),
{
    let mut v = v;
    let ghost orig = pair_views(v@);
    let mut out: Vec<(Vec<u8>, Vec<u8>)> = Vec::new();
    while v.len() > 0
        invariant
            orig.len() == v@.len() + out@.len(),
            forall|j: int| 0 <= j < v@.len() ==> #[trigger] pair_views(v@)[j] == orig[j],
            forall|j: int| 0 <= j < out@.len() ==> #[trigger] pair_views(out@)[j] == orig[orig.len() - 1 - j],
        decreases v@.len(),
    {
        let ghost v0 = v@;
        let p = v.pop().unwrap();
        let ghost n = v@.len();
        assert(pair_views(v0)[n as int] == (p.0@, p.1@));
        assert forall|j: int| 0 <= j < v@.len() implies #[trigger] pair_views(v@)[j] == orig[j] by {
            assert(v@[j] == v0[j]);
            assert(pair_views(v0)[j] == orig[j]);
        }
        let ghost out0 = out@;
        out.push(p);
        assert forall|j: int| 0 <= j < out@.len() implies #[trigger] pair_views(out@)[j] == orig[orig.len() - 1 - j] by {
            if j < out@.len() - 1 {
                assert(out@[j] == out0[j]);
                assert(pair_views(out0)[j] == orig[orig.len() - 1 - j]);
            }
        }
    }
    assert(pair_views(out@) =~= orig.reverse());
    out
}

/// Views of several entry sources.
pub open spec fn source_views(v: Seq<Vec<Entry>>) -> Seq<Seq<EntryView>> {
    v.map_values(|src: Vec<Entry>| entry_views(src@))
}

/// Source `src` has an entry for key `k`.
pub open spec fn source_holds(src: Seq<EntryView>, k: Seq<u8>) -> bool {
    exists|j: int| 0 <= j < src.len() && #[trigger] src[j].key == k
}

/// Source `s` is the first (highest-priority) source with an entry for `k`.
pub open spec fn first_holder(sv: Seq<Seq<EntryView>>, k: Seq<u8>, s: int) -> bool {
    &&& 0 <= s < sv.len()
    &&& source_holds(sv[s], k)
    &&& forall|t: int| 0 <= t < s ==> !source_holds(#[trigger] sv[t], k)
}

/// Entry `j` is the first entry of `src` with key `k`.
#[verifier::opaque]
pub open spec fn first_in(src: Seq<EntryView>, k: Seq<u8>, j: int) -> bool {
    &&& 0 <= j < src.len()
    &&& src[j].key == k
    &&& forall|i: int| 0 <= i < j ==> (#[trigger] src[i]).key != k
}

/// Keys never decrease along the source (a key may repeat).
pub open spec fn keys_nondecreasing(s: Seq<EntryView>) -> bool {
    forall|i: int, j: int| 0 <= i < j < s.len() ==> lex_le(#[trigger] s[i].key, #[trigger] s[j].key)
}

/// Strictly increasing keys never decrease.
pub proof fn lemma_sorted_nondecreasing(s: Seq<EntryView>)
    requires
        keys_sorted(s),
    ensures
        keys_nondecreasing(s),
{
}

/// `p` is the pair that the merge of `sv` yields for its key: the first entry
/// with that key in the first source holding it is live with that value.
pub open spec fn merged_pair(sv: Seq<Seq<EntryView>>, p: PairView) -> bool {
    exists|s: int, j: int|
        #![trigger sv[s][j]]
        first_holder(sv, p.0, s) && first_in(sv[s], p.0, j) && live_pair(sv[s][j]) == Some(p)
}

/// Keys strictly increase along the sequence.
pub open spec fn pairs_strictly_sorted(r: Seq<PairView>) -> bool {
    forall|i: int, j: int| 0 <= i < j < r.len() ==> lex_lt(#[trigger] r[i].0, #[trigger] r[j].0)
}

/// `r` is the merge of the sources `sv`: one pair per key, in key order, taken from the
/// first entry of the key in the first source that holds the key, and only where that
/// entry has an inline value.
pub open spec fn is_merge_of(r: Seq<PairView>, sv: Seq<Seq<EntryView>>) -> bool {
    &&& pairs_strictly_sorted(r)
    &&& forall|i: int| 0 <= i < r.len() ==> merged_pair(sv, #[trigger] r[i])
    &&& forall|s: int, j: int|
        #![trigger sv[s][j]]
        0 <= s < sv.len() && first_in(sv[s], sv[s][j].key, j) && first_holder(sv, sv[s][j].key, s) && live_pair(sv[s][j]) is Some
            ==> exists|i: int| 0 <= i < r.len() && #[trigger] r[i].0 == sv[s][j].key
}

/// Entries of the sources not yet consumed.
pub open spec fn slack(sv: Seq<Seq<EntryView>>, pos: Seq<usize>, k: int) -> int
    decreases k,
{
    if k <= 0 {
        0
    } else {
        slack(sv, pos, k - 1) + (sv[k - 1].len() - pos[k - 1])
    }
}

proof fn lemma_slack_step(sv: Seq<Seq<EntryView>>, pos: Seq<usize>, b: int, k: int)
    requires
        0 <= b < pos.len(),
        pos.len() == sv.len(),
        0 <= k <= sv.len(),
        pos[b] < sv[b].len(),
        pos[b] < usize::MAX,
    ensures
        slack(sv, pos.update(b, (pos[b] + 1) as usize), k) == slack(sv, pos, k) - (if b < k { 1int } else { 0int }),
    decreases k,
{
    if k > 0 {
        lemma_slack_step(sv, pos, b, k - 1);
        let p2 = pos.update(b, (pos[b] + 1) as usize);
        assert(p2[k - 1] == if k - 1 == b { (pos[b] + 1) as usize } else { pos[k - 1] });
    }
}

proof fn lemma_slack_nonneg(sv: Seq<Seq<EntryView>>, pos: Seq<usize>, k: int)
    requires
        pos.len() == sv.len(),
        0 <= k <= sv.len(),
        forall|s: int| 0 <= s < sv.len() ==> #[trigger] pos[s] <= sv[s].len(),
    ensures
        slack(sv, pos, k) >= 0,
    decreases k,
{
    if k > 0 {
        lemma_slack_nonneg(sv, pos, k - 1);
    }
}

/// Cursor for resuming iteration.
#[derive(Debug, Clone, Copy)]
pub struct IteratorCursor {
    pub position: usize,
}

/// Iterator over the live key-value pairs of a range scan.
pub struct LSMIterator {
    entries: Vec<(Vec<u8>, Vec<u8>)>,
    position: usize,
    reverse: bool,
    limit: Option<usize>,
}

impl LSMIterator {
    /// The pairs the iterator walks over, in iteration order.
    pub closed spec fn pairs(&self) -> Seq<PairView> {
        pair_views(self.entries@)
    }

    /// Index of the next pair to return.
    pub closed spec fn pos(&self) -> int {
        self.position as int
    }

    /// Maximum number of pairs to return, if any.
    pub closed spec fn max_results(&self) -> Option<usize> {
        self.limit
    }

    /// Whether the pairs are in descending key order.
    pub closed spec fn is_reverse(&self) -> bool {
        self.reverse
    }

    /// Creates an iterator over the live pairs of `entries` (deletions and blob
    /// references are skipped), sorted by key, descending if `reverse`.
    pub fn new(entries: Vec<Entry>, reverse: bool) -> (r: Self)
        ensures
            is_stable_sort_of(
                if reverse { r.pairs().reverse() } else { r.pairs() },
                live_pairs(entry_views(entries@)),
            ),
            r.pos() == 0,
            r.max_results() is None,
            r.is_reverse() == reverse,
    {
        let ghost src = entry_views(entries@);
        let mut kv: Vec<(Vec<u8>, Vec<u8>)> = Vec::new();
        let mut i: usize = 0;
        proof {
            reveal(Seq::filter);
            assert(src.subrange(0, 0) =~= Seq::<EntryView>::empty());
            assert(pair_views(kv@) =~= Seq::<PairView>::empty());
            assert forall|k: Seq<u8>| #[trigger] pair_views(kv@).filter(with_key(k)) == live_pairs(src.subrange(0, 0)).filter(with_key(k)) by {
                assert(live_pairs(src.subrange(0, 0)) =~= Seq::<PairView>::empty());
            }
        }
        while i < entries.len()
            invariant
                src == entry_views(entries@),
                src.len() == entries@.len(),
                i <= entries@.len(),
                is_stable_sort_of(pair_views(kv@), live_pairs(src.subrange(0, i as int))),
            decreases entries@.len() - i,
        {
            let ghost before = src.subrange(0, i as int);
            assert(src.subrange(0, i + 1).drop_last() =~= before);
            assert(src.subrange(0, i + 1).last() == src[i as int]);
            assert(entries@[i as int]@ == src[i as int]);
            match &entries[i].value {
                Some(ValueLocation::Inline(data)) => {
                    let key = copy_bytes(&entries[i].key);
                    let value = copy_bytes(data);
                    let pos = upper_position(&kv, key.as_slice());
                    let ghost x = (key@, value@);
                    proof {
                        assert(live_pair(src[i as int]) == Some(x));
                        assert(live_pairs(src.subrange(0, i + 1)) =~= live_pairs(before) + seq![x]);
                        assert(live_pairs(before) + seq![x] =~= live_pairs(before).push(x));
                        lemma_stable_insert(pair_views(kv@), live_pairs(before), pos as int, x);
                    }
                    let ghost kv0 = kv@;
                    kv.insert(pos, (key, value));
                    assert(pair_views(kv@) =~= pair_views(kv0).insert(pos as int, x));
                },
                _ => {
                    assert(live_pair(src[i as int]) is None);
                    assert(live_pairs(src.subrange(0, i + 1)) =~= live_pairs(before));
                },
            }
            i = i + 1;
        }
        assert(src.subrange(0, i as int) =~= src);
        let ghost fwd = pair_views(kv@);
        let kv = if reverse {
            let r = reverse_pairs(kv);
            assert(pair_views(r@).reverse() =~= fwd);
            r
        } else {
            kv
        };
        LSMIterator { entries: kv, position: 0, reverse, limit: None }
    }

    /// Merges several sources, each sorted by key, into one iterator. For each key
    /// the entry of the first source holding it wins; a winning deletion (or blob
    /// reference) hides the key. Pairs come in ascending key order, or descending
    /// if `reverse`.
    #[verifier::rlimit(100)]
    pub fn merge(sources: Vec<Vec<Entry>>, reverse: bool) -> (r: Self)
        requires
            forall|s: int| 0 <= s < sources@.len() ==> keys_nondecreasing(#[trigger] source_views(sources@)[s]),
        ensures
            is_merge_of(if reverse { r.pairs().reverse() } else { r.pairs() }, source_views(sources@)),
            r.pos() == 0,
            r.max_results() is None,
            r.is_reverse() == reverse,
    {
        let ghost sv = source_views(sources@);
        let n = sources.len();
        let mut pos: Vec<usize> = Vec::new();
        while pos.len() < n
            invariant
                pos@.len() <= n,
                forall|s: int| 0 <= s < pos@.len() ==> #[trigger] pos@[s] == 0,
            decreases n - pos@.len(),
        {
            pos.push(0);
        }
        let mut out: Vec<(Vec<u8>, Vec<u8>)> = Vec::new();
        let mut last: Option<Vec<u8>> = None;
        assert(sv.len() == n);
        loop
            invariant_except_break
                sv == source_views(sources@),
                sv.len() == n,
                n == sources@.len(),
                forall|s: int| 0 <= s < n ==> keys_nondecreasing(#[trigger] sv[s]),
                pos@.len() == n,
                forall|s: int| 0 <= s < n ==> #[trigger] pos@[s] <= sv[s].len(),
                last is None ==> out@.len() == 0 && forall|s: int| 0 <= s < n ==> #[trigger] pos@[s] == 0,
                last matches Some(l) ==> forall|s: int, j: int|
                    #![trigger sv[s][j]]
                    0 <= s < n && 0 <= j < pos@[s] ==> lex_le(sv[s][j].key, l@),
                last matches Some(l) ==> forall|s: int, j: int|
                    #![trigger sv[s][j]]
                    0 <= s < n && pos@[s] <= j < sv[s].len() ==> lex_le(l@, sv[s][j].key),
                last matches Some(l) ==> exists|s: int, j: int|
                    #![trigger sv[s][j]]
                    0 <= s < n && 0 <= j < pos@[s] && sv[s][j].key == l@ && first_holder(sv, l@, s),
                pairs_strictly_sorted(pair_views(out@)),
                last matches Some(l) ==> forall|i: int| 0 <= i < out@.len() ==> lex_le(#[trigger] pair_views(out@)[i].0, l@),
                forall|i: int| 0 <= i < out@.len() ==> merged_pair(sv, #[trigger] pair_views(out@)[i]),
                forall|s: int, j: int|
                    #![trigger sv[s][j]]
                    0 <= s < n && 0 <= j < pos@[s] && first_in(sv[s], sv[s][j].key, j) && first_holder(sv, sv[s][j].key, s)
                        && live_pair(sv[s][j]) is Some
                        ==> exists|i: int| 0 <= i < out@.len() && #[trigger] pair_views(out@)[i].0 == sv[s][j].key,
            ensures
                sv.len() == n,
                pos@.len() == n,
                forall|s: int| 0 <= s < n ==> #[trigger] pos@[s] == sv[s].len(),
                pairs_strictly_sorted(pair_views(out@)),
                forall|i: int| 0 <= i < out@.len() ==> merged_pair(sv, #[trigger] pair_views(out@)[i]),
                forall|s: int, j: int|
                    #![trigger sv[s][j]]
                    0 <= s < n && 0 <= j < pos@[s] && first_in(sv[s], sv[s][j].key, j) && first_holder(sv, sv[s][j].key, s)
                        && live_pair(sv[s][j]) is Some
                        ==> exists|i: int| 0 <= i < out@.len() && #[trigger] pair_views(out@)[i].0 == sv[s][j].key,
            decreases slack(sv, pos@, n as int),
        {
            // Select the smallest head; on equal keys the first source wins.
            let mut best: Option<usize> = None;
            let mut t: usize = 0;
            while t < n
                invariant
                    sv == source_views(sources@),
                    sv.len() == n,
                    n == sources@.len(),
                    pos@.len() == n,
                    forall|s: int| 0 <= s < n ==> #[trigger] pos@[s] <= sv[s].len(),
                    t <= n,
                    best is None ==> forall|u: int| 0 <= u < t ==> #[trigger] pos@[u] == sv[u].len(),
                    best matches Some(b) ==> b < t && pos@[b as int] < sv[b as int].len(),
                    best matches Some(b) ==> forall|u: int|
                        0 <= u < t && #[trigger] pos@[u] < sv[u].len() ==> lex_le(
                            sv[b as int][pos@[b as int] as int].key,
                            sv[u][pos@[u] as int].key,
                        ) && (sv[u][pos@[u] as int].key == sv[b as int][pos@[b as int] as int].key ==> b <= u),
                decreases n - t,
            {
                let pt = pos[t];
                if pt < sources[t].len() {
                    assert(sources@[t as int]@[pt as int]@ == sv[t as int][pt as int]);
                    match best {
                        None => {
                            best = Some(t);
                        },
                        Some(b) => {
                            let pb = pos[b];
                            assert(sources@[b as int]@[pb as int]@ == sv[b as int][pb as int]);
                            if key_less(sources[t][pt].key.as_slice(), sources[b][pb].key.as_slice()) {
                                assert forall|u: int|
                                    0 <= u < t + 1 && #[trigger] pos@[u] < sv[u].len() implies lex_le(
                                    sv[t as int][pt as int].key,
                                    sv[u][pos@[u] as int].key,
                                ) && (sv[u][pos@[u] as int].key == sv[t as int][pt as int].key ==> t <= u) by {
                                    if u < t {
                                        lemma_lex_le_transitive(sv[t as int][pt as int].key, sv[b as int][pb as int].key, sv[u][pos@[u] as int].key);
                                        if sv[u][pos@[u] as int].key == sv[t as int][pt as int].key {
                                            lemma_lex_trichotomy(sv[t as int][pt as int].key, sv[b as int][pb as int].key);
                                        }
                                    } else {
                                        lemma_lex_irreflexive(sv[t as int][pt as int].key);
                                    }
                                }
                                best = Some(t);
                            } else {
                                proof {
                                    lemma_lex_trichotomy(sv[t as int][pt as int].key, sv[b as int][pb as int].key);
                                }
                            }
                        },
                    }
                }
                t = t + 1;
            }
            match best {
                None => {
                    break;
                },
                Some(b) => {
                    let pb = pos[b];
                    let blen = sources[b].len();
                    assert(sv[b as int].len() == blen);
                    let ghost k = sv[b as int][pb as int].key;
                    let ghost e = sv[b as int][pb as int];
                    let ghost pos0 = pos@;
                    let ghost out0 = pair_views(out@);
                    let ghost last0: Option<Seq<u8>> = match last {
                        Some(ref l) => Some(l@),
                        None => None,
                    };
                    assert(sources@[b as int]@[pb as int]@ == e);
                    let ekey = sources[b][pb].key.as_slice();
                    let dup = match &last {
                        Some(lk) => crate::keyorder::key_eq(lk.as_slice(), ekey),
                        None => false,
                    };
                    proof {
                        lemma_slack_step(sv, pos0, b as int, n as int);
                        let p2 = pos0.update(b as int, (pb + 1) as usize);
                        assert forall|s: int| 0 <= s < sv.len() implies #[trigger] p2[s] <= sv[s].len() by {}
                        lemma_slack_nonneg(sv, p2, n as int);
                        assert(sv[b as int][pb as int] == e);
                    }
                    if dup {
                        proof {
                            let l = last.unwrap()@;
                            assert(k == l);
                            let (s0, j0) = choose|s: int, j: int|
                                #![trigger sv[s][j]]
                                0 <= s < n && 0 <= j < pos0[s] && sv[s][j].key == l && first_holder(sv, l, s);
                            if first_holder(sv, k, b as int) {
                                if s0 < b {
                                    assert(source_holds(sv[s0], k));
                                } else if s0 > b {
                                    assert(source_holds(sv[b as int], k));
                                } else {
                                    assert(sv[b as int][j0].key == k);
                                    assert(!first_in(sv[b as int], k, pb as int)) by {
                                        reveal(first_in);
                                    }
                                }
                            }
                            assert forall|s: int, j: int|
                                #![trigger sv[s][j]]
                                0 <= s < n && pos0.update(b as int, (pb + 1) as usize)[s] <= j < sv[s].len() implies lex_le(l, sv[s][j].key) by {
                                if s == b {
                                    assert(lex_le(sv[b as int][pb as int].key, sv[s][j].key));
                                }
                            }
                        }
                        pos.set(b, pb + 1);
                        assert(pos@ =~= pos0.update(b as int, (pb + 1) as usize));
                    } else {
                        proof {
                            if last is Some {
                                let l = last.unwrap()@;
                                assert(lex_le(l, k));
                                lemma_lex_trichotomy(l, k);
                                assert(lex_lt(l, k));
                            }
                            // The selected source is the first to hold the key.
                            assert(source_holds(sv[b as int], k));
                            assert forall|u: int| 0 <= u < b implies !source_holds(#[trigger] sv[u], k) by {
                                if source_holds(sv[u], k) {
                                    let j = choose|j: int| 0 <= j < sv[u].len() && #[trigger] sv[u][j].key == k;
                                    if j < pos0[u] {
                                        let l = last.unwrap()@;
                                        assert(lex_le(sv[u][j].key, l));
                                        lemma_lex_trichotomy(l, k);
                                    } else {
                                        let h = sv[u][pos0[u] as int].key;
                                        if j > pos0[u] {
                                            assert(lex_le(h, k));
                                        }
                                        assert(lex_le(k, h));
                                        lemma_lex_trichotomy(h, k);
                                    }
                                }
                            }
                            assert(first_holder(sv, k, b as int));
                            assert forall|i: int| 0 <= i < pb implies (#[trigger] sv[b as int][i]).key != k by {
                                let l = last.unwrap()@;
                                assert(lex_le(sv[b as int][i].key, l));
                                if sv[b as int][i].key == k {
                                    lemma_lex_trichotomy(l, k);
                                }
                            }
                            assert(first_in(sv[b as int], k, pb as int)) by {
                                reveal(first_in);
                            }
                        }
                        let is_live = match &sources[b][pb].value {
                            Some(ValueLocation::Inline(_)) => true,
                            _ => false,
                        };
                        if is_live {
                            let v = match &sources[b][pb].value {
                                Some(ValueLocation::Inline(d)) => copy_bytes(d),
                                _ => Vec::new(),
                            };
                            let kc = copy_bytes(&sources[b][pb].key);
                            proof {
                                assert(live_pair(e) == Some((kc@, v@)));
                                assert(merged_pair(sv, (kc@, v@)));
                            }
                            out.push((kc, v));
                            assert(pair_views(out@) =~= out0.push((k, v@)));
                        } else {
                            assert(live_pair(e) is None);
                        }
                        last = Some(copy_bytes(&sources[b][pb].key));
                        pos.set(b, pb + 1);
                        assert(pos@ =~= pos0.update(b as int, (pb + 1) as usize));
                        proof {
                            let po = pair_views(out@);
                            assert forall|i: int, i2: int| 0 <= i < i2 < po.len() implies lex_lt(#[trigger] po[i].0, #[trigger] po[i2].0) by {
                                if i2 == po.len() - 1 && is_live && last0 is Some {
                                    lemma_lex_le_transitive(po[i].0, last0.unwrap(), k);
                                }
                            }
                            assert forall|s: int, j: int|
                                #![trigger sv[s][j]]
                                0 <= s < n && 0 <= j < pos@[s] implies lex_le(sv[s][j].key, k) by {
                                if !(s == b && j == pb) {
                                    lemma_lex_le_transitive(sv[s][j].key, last0.unwrap(), k);
                                }
                            }
                            assert forall|s: int, j: int|
                                #![trigger sv[s][j]]
                                0 <= s < n && pos@[s] <= j < sv[s].len() implies lex_le(k, sv[s][j].key) by {
                                if s == b {
                                    assert(lex_le(sv[b as int][pb as int].key, sv[s][j].key));
                                } else {
                                    let h = sv[s][pos0[s] as int].key;
                                    if j > pos0[s] {
                                        assert(lex_le(h, sv[s][j].key));
                                    }
                                    lemma_lex_le_transitive(k, h, sv[s][j].key);
                                }
                            }
                            assert forall|i: int| 0 <= i < po.len() implies lex_le(#[trigger] po[i].0, k) by {
                                if i < out0.len() && last0 is Some {
                                    lemma_lex_le_transitive(po[i].0, last0.unwrap(), k);
                                }
                            }
                            assert forall|s: int, j: int|
                                #![trigger sv[s][j]]
                                0 <= s < n && 0 <= j < pos@[s] && first_in(sv[s], sv[s][j].key, j) && first_holder(sv, sv[s][j].key, s)
                                    && live_pair(sv[s][j]) is Some
                                    implies exists|i: int| 0 <= i < po.len() && #[trigger] po[i].0 == sv[s][j].key by {
                                if s == b && j == pb {
                                    assert(po[po.len() - 1].0 == k);
                                } else {
                                    let i = choose|i: int| 0 <= i < out0.len() && #[trigger] out0[i].0 == sv[s][j].key;
                                    assert(po[i] == out0[i]);
                                }
                            }
                            assert(sv[b as int][pb as int].key == k);
                        }
                    }
                }
            }
        }
        proof {
            let po = pair_views(out@);
            assert forall|s: int, j: int|
                #![trigger sv[s][j]]
                0 <= s < sv.len() && first_in(sv[s], sv[s][j].key, j) && first_holder(sv, sv[s][j].key, s) && live_pair(sv[s][j]) is Some
                    implies exists|i: int| 0 <= i < po.len() && #[trigger] po[i].0 == sv[s][j].key by {
                reveal(first_in);
                assert(j < pos@[s]);
            }
        }
        let ghost fwd = pair_views(out@);
        let out = if reverse {
            let r = reverse_pairs(out);
            assert(pair_views(r@).reverse() =~= fwd);
            r
        } else {
            out
        };
        LSMIterator { entries: out, position: 0, reverse, limit: None }
    }

    /// The pairs that polling still hands out, in order: from the current
    /// position to the end, or to the limit where it comes first.
    pub open spec fn pending(&self) -> Seq<PairView> {
        let end = match self.max_results() {
            Some(l) => if l < self.pairs().len() { l as int } else { self.pairs().len() as int },
            None => self.pairs().len() as int,
        };
        if self.pos() < end {
            self.pairs().subrange(self.pos(), end)
        } else {
            Seq::empty()
        }
    }

    /// Polls the iterator until it is exhausted and hands out what it yielded:
    /// exactly its pending pairs.
    pub fn collect_pairs(self) -> (r: Vec<(Vec<u8>, Vec<u8>)>)
        ensures
            pair_views(r@) == self.pending(),
    {
        let ghost target = self.pending();
        let mut it = self;
        let mut out: Vec<(Vec<u8>, Vec<u8>)> = Vec::new();
        assert(pair_views(out@) + it.pending() =~= target);
        loop
            invariant
                pair_views(out@) + it.pending() == target,
                target == self.pending(),
                it.pos() >= 0,
            decreases it.pairs().len() - it.pos(),
        {
            let ghost before = it;
            match it.next() {
                None => {
                    assert(before.pending() =~= Seq::<PairView>::empty());
                    assert(pair_views(out@) =~= target);
                    return out;
                },
                Some(Err(_)) => {
                    assert(false);
                    return out;
                },
                Some(Ok(p)) => {
                    let ghost prev = pair_views(out@);
                    out.push(p);
                    assert(pair_views(out@) =~= prev.push(before.pairs()[before.pos()]));
                    assert(before.pending() =~= seq![before.pairs()[before.pos()]] + it.pending());
                    assert(pair_views(out@) + it.pending() =~= prev + before.pending());
                },
            }
        }
    }

    /// Stops the iteration after `limit` pairs.
    pub fn set_limit(&mut self, limit: usize)
        ensures
            final(self).max_results() == Some(limit),
            final(self).pairs() == old(self).pairs(),
            final(self).pos() == old(self).pos(),
            final(self).is_reverse() == old(self).is_reverse(),
    {
        self.limit = Some(limit);
    }

    /// The next pair, or `None` at the end or once the limit is reached.
    pub fn next(&mut self) -> (r: Option<KeyValueResult<(Vec<u8>, Vec<u8>)>>)
        ensures
            final(self).pairs() == old(self).pairs(),
            final(self).max_results() == old(self).max_results(),
            final(self).is_reverse() == old(self).is_reverse(),
            if (old(self).max_results() matches Some(l) && old(self).pos() >= l) || old(self).pos() >= old(
                self,
            ).pairs().len() {
                r is None && final(self).pos() == old(self).pos()
            } else {
                &&& r matches Some(Ok(p)) && (p.0@, p.1@) == old(self).pairs()[old(self).pos()]
                &&& final(self).pos() == old(self).pos() + 1
            },
    {
        if let Some(limit) = self.limit {
            if self.position >= limit {
                return None;
            }
        }
        if self.position < self.entries.len() {
            let p = &self.entries[self.position];
            assert(self.pairs()[self.pos()] == (p.0@, p.1@));
            let out = (copy_bytes(&p.0), copy_bytes(&p.1));
            self.position = self.position + 1;
            Some(Ok(out))
        } else {
            None
        }
    }

    /// Moves to the first pair whose key is not less than `key` (for an ascending iterator).
    pub fn seek(&mut self, key: &[u8]) -> (r: KeyValueResult<()>)
        ensures
            r is Ok,
            final(self).pairs() == old(self).pairs(),
            final(self).max_results() == old(self).max_results(),
            final(self).is_reverse() == old(self).is_reverse(),
            0 <= final(self).pos() <= old(self).pairs().len(),
            pairs_sorted(old(self).pairs()) ==> lower_bound(old(self).pairs(), key@, final(self).pos()),
    {
        let ghost s = self.pairs();
        let sorted = self.is_sorted();
        let mut lo: usize = 0;
        let mut hi: usize = self.entries.len();
        while lo < hi
            invariant
                s == pair_views(self.entries@),
                s.len() == self.entries@.len(),
                lo <= hi <= s.len(),
                sorted == pairs_sorted(s),
                sorted ==> forall|j: int| 0 <= j < lo ==> lex_lt(#[trigger] s[j].0, key@),
                sorted ==> forall|j: int| hi <= j < s.len() ==> !lex_lt(#[trigger] s[j].0, key@),
            decreases hi - lo,
        {
            let mid = lo + (hi - lo) / 2;
            assert(s[mid as int].0 == self.entries@[mid as int].0@);
            if key_less(self.entries[mid].0.as_slice(), key) {
                if sorted {
                    assert forall|j: int| 0 <= j < mid + 1 implies lex_lt(#[trigger] s[j].0, key@) by {
                        if j < mid {
                            lemma_lex_le_transitive(s[j].0, s[mid as int].0, key@);
                        }
                    }
                }
                lo = mid + 1;
            } else {
                if sorted {
                    assert forall|j: int| mid <= j < s.len() implies !lex_lt(#[trigger] s[j].0, key@) by {
                        if j > mid && lex_lt(s[j].0, key@) {
                            lemma_lex_le_transitive(s[mid as int].0, s[j].0, key@);
                        }
                    }
                }
                hi = mid;
            }
        }
        self.position = lo;
        Ok(())
    }

    /// Whether the pairs are in ascending key order.
    fn is_sorted(&self) -> (r: bool)
        ensures
            r == pairs_sorted(self.pairs()),
    {
        let ghost s = self.pairs();
        let n = self.entries.len();
        if n == 0 {
            return true;
        }
        let mut i: usize = 1;
        while i < n
            invariant
                s == pair_views(self.entries@),
                s.len() == n,
                1 <= i <= n,
                forall|a: int, b: int| 0 <= a < b < i ==> lex_le(#[trigger] s[a].0, #[trigger] s[b].0),
            decreases n - i,
        {
            assert(s[i as int].0 == self.entries@[i as int].0@);
            assert(s[i - 1].0 == self.entries@[i - 1].0@);
            if key_less(self.entries[i].0.as_slice(), self.entries[i - 1].0.as_slice()) {
                proof {
                    lemma_lex_trichotomy(s[i as int].0, s[i - 1].0);
                }
                return false;
            }
            proof {
                lemma_lex_trichotomy(s[i as int].0, s[i - 1].0);
                assert forall|a: int, b: int| 0 <= a < b < i + 1 implies lex_le(#[trigger] s[a].0, #[trigger] s[b].0) by {
                    if b == i && a < i - 1 {
                        lemma_lex_le_transitive(s[a].0, s[i - 1].0, s[i as int].0);
                    }
                }
            }
            i = i + 1;
        }
        true
    }

    /// The key of the pair most recently returned, if any.
    pub fn position(&self) -> (r: Option<Vec<u8>>)
        ensures
            if 0 < self.pos() <= self.pairs().len() {
                r is Some && r.unwrap()@ == self.pairs()[self.pos() - 1].0
            } else {
                r is None
            },
    {
        if self.position > 0 && self.position <= self.entries.len() {
            assert(self.pairs()[self.pos() - 1].0 == self.entries@[self.pos() - 1].0@);
            Some(copy_bytes(&self.entries[self.position - 1].0))
        } else {
            None
        }
    }

    /// Whether a pair remains at the current position.
    pub fn valid(&self) -> (r: bool)
        ensures
            r == (self.pos() < self.pairs().len()),
    {
        self.position < self.entries.len()
    }

    /// The pairs the iterator walks over, in iteration order.
    pub fn entries(&self) -> (r: &Vec<(Vec<u8>, Vec<u8>)>)
        ensures
            pair_views(r@) == self.pairs(),
    {
        &self.entries
    }

    /// The current position, for resuming iteration later.
    pub fn get_cursor(&self) -> (r: IteratorCursor)
        ensures
            r.position == self.pos(),
    {
        IteratorCursor { position: self.position }
    }

    /// An iterator over `entries` positioned at `cursor`.
    pub fn from_cursor(entries: Vec<(Vec<u8>, Vec<u8>)>, cursor: IteratorCursor, reverse: bool) -> (r: Self)
        ensures
            r.pairs() == pair_views(entries@),
            r.pos() == cursor.position,
            r.max_results() is None,
            r.is_reverse() == reverse,
    {
        LSMIterator { entries, position: cursor.position, reverse, limit: None }
    }
}

/// An iterator limited to `n` pairs before it is polled hands out the first
/// `min(n, m)` of its `m` pairs.
pub proof fn lemma_limit_pending(it: LSMIterator, n: usize)
    requires
        it.pos() == 0,
        it.max_results() == Some(n),
    ensures
        it.pending() == it.pairs().take(if n < it.pairs().len() { n as int } else { it.pairs().len() as int }),
{
    assert(it.pairs().subrange(0, it.pairs().len() as int) =~= it.pairs().take(it.pairs().len() as int));
}

/// An iterator rebuilt from another's pairs and cursor, neither limited, hands
/// out the same pairs as the other: the rest from the cursor on.
pub proof fn lemma_resume_pending(it: LSMIterator, resumed: LSMIterator)
    requires
        it.max_results() is None,
        resumed.max_results() is None,
        resumed.pairs() == it.pairs(),
        resumed.pos() == it.pos(),
        0 <= it.pos() <= it.pairs().len(),
    ensures
        resumed.pending() == it.pending(),
        it.pending() == it.pairs().skip(it.pos()),
{
    assert(it.pairs().subrange(it.pos(), it.pairs().len() as int) =~= it.pairs().skip(it.pos()));
}

/// A sequence in which no pair has key `k` keeps nothing when filtered by `k`.
proof fn lemma_filter_absent(s: Seq<PairView>, k: Seq<u8>)
    requires
        forall|i: int| 0 <= i < s.len() ==> (#[trigger] s[i]).0 != k,
    ensures
        s.filter(with_key(k)).len() == 0,
    decreases s.len(),
{
    broadcast use Seq::lemma_filter_push;
    if s.len() > 0 {
        lemma_filter_absent(s.drop_last(), k);
        assert(s =~= s.drop_last().push(s.last()));
    } else {
        reveal(Seq::filter);
    }
}

/// Two key-sorted sequences that hold the same pairs of each key, in the same
/// order, are equal.
proof fn lemma_sorted_filters_equal(a: Seq<PairView>, b: Seq<PairView>)
    requires
        pairs_sorted(a),
        pairs_sorted(b),
        forall|k: Seq<u8>| #[trigger] a.filter(with_key(k)) == b.filter(with_key(k)),
    ensures
        a == b,
    decreases a.len() + b.len(),
{
    broadcast use Seq::lemma_filter_push;
    if a.len() == 0 || b.len() == 0 {
        if b.len() > 0 {
            assert(b =~= b.drop_last().push(b.last()));
            assert(b.filter(with_key(b.last().0)).len() > 0);
            lemma_filter_absent(a, b.last().0);
        }
        if a.len() > 0 {
            assert(a =~= a.drop_last().push(a.last()));
            assert(a.filter(with_key(a.last().0)).len() > 0);
            lemma_filter_absent(b, a.last().0);
        }
        assert(a =~= b);
    } else {
        let x = a.last();
        let y = b.last();
        let a1 = a.drop_last();
        let b1 = b.drop_last();
        assert(a =~= a1.push(x));
        assert(b =~= b1.push(y));
        // Each last key is the largest of both sequences, so they are equal.
        assert(lex_le(y.0, x.0)) by {
            assert(b.filter(with_key(y.0)).len() > 0);
            if forall|i: int| 0 <= i < a.len() ==> (#[trigger] a[i]).0 != y.0 {
                lemma_filter_absent(a, y.0);
            }
            let i = choose|i: int| 0 <= i < a.len() && (#[trigger] a[i]).0 == y.0;
            if i < a.len() - 1 {
                assert(lex_le(a[i].0, a[a.len() - 1].0));
            }
        }
        assert(lex_le(x.0, y.0)) by {
            assert(a.filter(with_key(x.0)).len() > 0);
            if forall|i: int| 0 <= i < b.len() ==> (#[trigger] b[i]).0 != x.0 {
                lemma_filter_absent(b, x.0);
            }
            let i = choose|i: int| 0 <= i < b.len() && (#[trigger] b[i]).0 == x.0;
            if i < b.len() - 1 {
                assert(lex_le(b[i].0, b[b.len() - 1].0));
            }
        }
        lemma_lex_trichotomy(x.0, y.0);
        assert(x.0 == y.0);
        let k = x.0;
        assert(a.filter(with_key(k)) == a1.filter(with_key(k)).push(x));
        assert(b.filter(with_key(k)) == b1.filter(with_key(k)).push(y));
        assert(x == a.filter(with_key(k)).last());
        assert(y == b.filter(with_key(k)).last());
        assert forall|k2: Seq<u8>| #[trigger] a1.filter(with_key(k2)) == b1.filter(with_key(k2)) by {
            assert(a.filter(with_key(k2)) == b.filter(with_key(k2)));
            if k2 == k {
                assert(a1.filter(with_key(k2)) =~= a.filter(with_key(k2)).drop_last());
                assert(b1.filter(with_key(k2)) =~= b.filter(with_key(k2)).drop_last());
            }
        }
        assert(pairs_sorted(a1)) by {
            assert forall|i: int, j: int| 0 <= i < j < a1.len() implies lex_le(#[trigger] a1[i].0, #[trigger] a1[j].0) by {
                assert(a1[i] == a[i] && a1[j] == a[j]);
            }
        }
        assert(pairs_sorted(b1)) by {
            assert forall|i: int, j: int| 0 <= i < j < b1.len() implies lex_le(#[trigger] b1[i].0, #[trigger] b1[j].0) by {
                assert(b1[i] == b[i] && b1[j] == b[j]);
            }
        }
        lemma_sorted_filters_equal(a1, b1);
    }
}

/// A stable sort by key is unique: two stable sorts of the same pairs are equal.
pub proof fn lemma_stable_sort_unique(a: Seq<PairView>, b: Seq<PairView>, s: Seq<PairView>)
    requires
        is_stable_sort_of(a, s),
        is_stable_sort_of(b, s),
    ensures
        a == b,
{
    assert forall|k: Seq<u8>| #[trigger] a.filter(with_key(k)) == b.filter(with_key(k)) by {
        assert(a.filter(with_key(k)) == s.filter(with_key(k)));
        assert(b.filter(with_key(k)) == s.filter(with_key(k)));
    }
    lemma_sorted_filters_equal(a, b);
}

/// An iterator built in reverse over the same entries as one built forward
/// yields the forward one's pairs in reverse order.
pub proof fn lemma_reverse_iterator(forward: LSMIterator, backward: LSMIterator, entries: Seq<EntryView>)
    requires
        is_stable_sort_of(forward.pairs(), live_pairs(entries)),
        is_stable_sort_of(backward.pairs().reverse(), live_pairs(entries)),
    ensures
        backward.pairs() == forward.pairs().reverse(),
{
    lemma_stable_sort_unique(backward.pairs().reverse(), forward.pairs(), live_pairs(entries));
    assert(backward.pairs() =~= backward.pairs().reverse().reverse());
}

} // verus!
