//! Key placement and scan bounds: how a key is assigned to a shard, and the
//! range of keys a scan covers.
use vstd::prelude::*;
use crate::keyorder::{lex_le, lex_lt, key_less, key_eq};
use crate::lsm::sstable::{fnv1a, hash_key};

verus! {

/// Hash function used to place keys on shards. Every variant hashes with
/// 64-bit FNV-1a.
#[derive(Debug, Clone, Copy, PartialEq, Eq, Structural)]
pub enum HashFunction {
    Murmur3,
    XXHash,
    CityHash,
}

impl HashFunction {
    /// Hashes a key to a 64-bit value.
    pub fn hash(&self, key: &[u8]) -> (r: u64)
        ensures
            r == fnv1a(key@),
    {
        match self {
            HashFunction::Murmur3 => hash_key(key),
            HashFunction::XXHash => hash_key(key),
            HashFunction::CityHash => hash_key(key),
        }
    }
}

/// How keys are distributed across shards.
#[derive(Debug, Clone)]
pub enum Partitioner {
    /// By the key's hash, modulo the shard count.
    Hash { hash_fn: HashFunction },
    /// By the first range `[start, end)` that holds the key.
    Range { ranges: Vec<(Vec<u8>, Vec<u8>)> },
    /// By the first list that holds the key.
    List { keys: Vec<Vec<Vec<u8>>> },
    /// By a big-endian timestamp in the key's first eight bytes.
    Time { interval_seconds: u64 },
}

/// Mathematical value of a [`Partitioner`].
pub enum PartitionerView {
    Hash,
    Range { ranges: Seq<(Seq<u8>, Seq<u8>)> },
    List { keys: Seq<Seq<Seq<u8>>> },
    Time { interval_seconds: u64 },
}

/// The views of a list of ranges.
pub open spec fn range_views(r: Seq<(Vec<u8>, Vec<u8>)>) -> Seq<(Seq<u8>, Seq<u8>)> {
    r.map_values(|x: (Vec<u8>, Vec<u8>)| (x.0@, x.1@))
}

/// The views of a list of key lists.
pub open spec fn list_views(l: Seq<Vec<Vec<u8>>>) -> Seq<Seq<Seq<u8>>> {
    l.map_values(|x: Vec<Vec<u8>>| key_list_view(x@))
}

/// The views of a list of keys.
pub open spec fn key_list_view(l: Seq<Vec<u8>>) -> Seq<Seq<u8>> {
    l.map_values(|k: Vec<u8>| k@)
}

impl View for Partitioner {
    type V = PartitionerView;

    open spec fn view(&self) -> PartitionerView {
        match self {
            Partitioner::Hash { .. } => PartitionerView::Hash,
            Partitioner::Range { ranges } => PartitionerView::Range { ranges: range_views(ranges@) },
            Partitioner::List { keys } => PartitionerView::List { keys: list_views(keys@) },
            Partitioner::Time { interval_seconds } => PartitionerView::Time { interval_seconds: *interval_seconds },
        }
    }
}

/// `key` lies in `[r.0, r.1)`.
pub open spec fn in_range(r: (Seq<u8>, Seq<u8>), key: Seq<u8>) -> bool {
    lex_le(r.0, key) && lex_lt(key, r.1)
}

/// `i` is the first range that holds `key`.
pub open spec fn is_first_range(ranges: Seq<(Seq<u8>, Seq<u8>)>, key: Seq<u8>, i: int) -> bool {
    0 <= i < ranges.len() && in_range(ranges[i], key) && forall|j: int| 0 <= j < i ==> !in_range(ranges[j], key)
}

/// The shard of the first range that holds `key`, 0 when none does.
pub open spec fn range_shard(ranges: Seq<(Seq<u8>, Seq<u8>)>, key: Seq<u8>) -> u32 {
    if exists|i: int| #[trigger] is_first_range(ranges, key, i) {
        (choose|i: int| #[trigger] is_first_range(ranges, key, i)) as u32
    } else {
        0
    }
}

/// `i` is the first list that holds `key`.
pub open spec fn is_first_list(keys: Seq<Seq<Seq<u8>>>, key: Seq<u8>, i: int) -> bool {
    0 <= i < keys.len() && keys[i].contains(key) && forall|j: int| 0 <= j < i ==> !keys[j].contains(key)
}

/// The shard of the first list that holds `key`, 0 when none does.
pub open spec fn list_shard(keys: Seq<Seq<Seq<u8>>>, key: Seq<u8>) -> u32 {
    if exists|i: int| #[trigger] is_first_list(keys, key, i) {
        (choose|i: int| #[trigger] is_first_list(keys, key, i)) as u32
    } else {
        0
    }
}

/// The value of the first `n` bytes of `s` read big-endian.
pub open spec fn be_value(s: Seq<u8>, n: int) -> nat
    decreases n,
{
    if n <= 0 { 0 } else { be_value(s, n - 1) * 256 + (s[n - 1] as nat) }
}

/// The timestamp held big-endian in the first eight bytes of a key.
pub open spec fn key_timestamp(key: Seq<u8>) -> i64 {
    (be_value(key, 8) as u64) as i64
}

/// Magnitude of a signed value.
pub open spec fn magnitude(x: i64) -> nat {
    if x < 0 { (-(x as int)) as nat } else { x as nat }
}

/// The shard of a timestamped key: the magnitude of the timestamp's interval
/// number (a quotient rounded toward zero), taken modulo the shard count.
pub open spec fn time_shard(key: Seq<u8>, interval_seconds: u64, shard_count: u32) -> u32 {
    ((magnitude(key_timestamp(key)) / magnitude(interval_seconds as i64)) % (shard_count as nat)) as u32
}

/// The shard index of `key` among `shard_count` shards.
pub open spec fn shard_index(p: PartitionerView, key: Seq<u8>, shard_count: u32) -> u32 {
    match p {
        PartitionerView::Hash => (fnv1a(key) % (shard_count as u64)) as u32,
        PartitionerView::Range { ranges } => range_shard(ranges, key),
        PartitionerView::List { keys } => list_shard(keys, key),
        PartitionerView::Time { interval_seconds } => if key.len() >= 8 {
            time_shard(key, interval_seconds, shard_count)
        } else {
            0
        },
    }
}

/// The inputs on which the placement is defined: a positive shard count for
/// hashing and for timestamps, and for timestamps a non-zero interval whose
/// quotient does not overflow.
pub open spec fn shard_index_defined(p: PartitionerView, key: Seq<u8>, shard_count: u32) -> bool {
    match p {
        PartitionerView::Hash => shard_count > 0,
        PartitionerView::Time { interval_seconds } => key.len() >= 8 ==> {
            &&& shard_count > 0
            &&& interval_seconds != 0
            &&& !(key_timestamp(key) == i64::MIN && (interval_seconds as i64) == -1)
        },
        _ => true,
    }
}

/// Hash and timestamp placement always name one of the `shard_count` shards.
pub proof fn lemma_shard_in_range(p: PartitionerView, key: Seq<u8>, shard_count: u32)
    requires
        shard_count > 0,
        p is Hash || p is Time,
    ensures
        shard_index(p, key, shard_count) < shard_count,
{
}

/// Magnitude of a signed value as an unsigned one.
fn unsigned_magnitude(x: i64) -> (r: u64)
    ensures
        r == magnitude(x),
{
    if x < 0 {
        if x == i64::MIN {
            0x8000_0000_0000_0000u64
        } else {
            (-x) as u64
        }
    } else {
        x as u64
    }
}

/// Reads the first eight bytes of `key` as a big-endian timestamp.
fn read_timestamp(key: &[u8]) -> (r: i64)
    requires
        key@.len() >= 8,
    ensures
        r == key_timestamp(key@),
{
    let mut v: u64 = 0;
    let mut i: usize = 0;
    while i < 8
        invariant
            i <= 8,
            key@.len() >= 8,
            v == be_value(key@, i as int),
            v < pow256(i as nat),
        decreases 8 - i,
    {
        proof {
            assert(pow256((i + 1) as nat) == pow256(i as nat) * 256);
            assert(pow256(8) == 0x1_0000_0000_0000_0000) by {
                reveal_with_fuel(pow256, 9);
            }
            lemma_pow256_mono((i + 1) as nat, 8);
            assert(v * 256 + key@[i as int] < pow256((i + 1) as nat)) by (nonlinear_arith)
                requires
                    v < pow256(i as nat),
                    key@[i as int] < 256,
                    pow256((i + 1) as nat) == pow256(i as nat) * 256,
            ;
        }
        v = v * 256 + key[i] as u64;
        i = i + 1;
    }
    v as i64
}

/// `256^n`.
pub open spec fn pow256(n: nat) -> nat
    decreases n,
{
    if n == 0 { 1 } else { 256 * pow256((n - 1) as nat) }
}

proof fn lemma_pow256_mono(a: nat, b: nat)
    requires
        a <= b,
    ensures
        pow256(a) <= pow256(b),
    decreases b,
{
    if a < b {
        lemma_pow256_mono(a, (b - 1) as nat);
    }
}

impl Partitioner {
    /// The shard index that `key` belongs to among `shard_count` shards:
    /// its hash modulo the count; the first range or list holding it (shard 0
    /// when none does); or, for timestamped keys, the interval number's
    /// magnitude modulo the count (shard 0 for keys under eight bytes).
    pub fn get_shard_index(&self, key: &[u8], shard_count: u32) -> (r: u32)
        requires
            shard_index_defined(self@, key@, shard_count),
        ensures
            r == shard_index(self@, key@, shard_count),
    {
        match self {
            Partitioner::Hash { hash_fn } => {
                let hash = hash_fn.hash(key);
                (hash % (shard_count as u64)) as u32
            },
            Partitioner::Range { ranges } => {
                let ghost rv = range_views(ranges@);
                let mut idx: usize = 0;
                while idx < ranges.len()
                    invariant
                        idx <= ranges.len(),
                        rv == range_views(ranges@),
                        self@ == (PartitionerView::Range { ranges: rv }),
                        forall|j: int| 0 <= j < idx ==> !in_range(rv[j], key@),
                    decreases ranges.len() - idx,
                {
                    let (start, end) = &ranges[idx];
                    let ge_start = !key_less(key, start.as_slice());
                    let lt_end = key_less(key, end.as_slice());
                    proof {
                        crate::keyorder::lemma_lex_trichotomy(key@, start@);
                        assert(rv[idx as int] == (start@, end@));
                    }
                    if ge_start && lt_end {
                        proof {
                            assert(is_first_range(rv, key@, idx as int));
                            let k = choose|i: int| #[trigger] is_first_range(rv, key@, i);
                            assert(is_first_range(rv, key@, k));
                            assert(!(k < idx as int));
                            assert(!((idx as int) < k));
                            assert(self@ == PartitionerView::Range { ranges: rv });
                            assert(range_shard(rv, key@) == idx as u32);
                        }
                        return idx as u32;
                    }
                    idx = idx + 1;
                }
                assert(forall|i: int| !#[trigger] is_first_range(rv, key@, i));
                0
            },
            Partitioner::List { keys } => {
                let ghost kv = list_views(keys@);
                let mut idx: usize = 0;
                while idx < keys.len()
                    invariant
                        idx <= keys.len(),
                        kv == list_views(keys@),
                        self@ == (PartitionerView::List { keys: kv }),
                        forall|j: int| 0 <= j < idx ==> !kv[j].contains(key@),
                    decreases keys.len() - idx,
                {
                    let list = &keys[idx];
                    let mut found = false;
                    let mut k: usize = 0;
                    while k < list.len()
                        invariant
                            k <= list.len(),
                            idx < keys.len(),
                            list == keys@[idx as int],
                            kv[idx as int] == key_list_view(list@),
                            found <==> exists|t: int| 0 <= t < k && #[trigger] key_list_view(list@)[t] == key@,
                        decreases list.len() - k,
                    {
                        if key_eq(list[k].as_slice(), key) {
                            found = true;
                            assert(key_list_view(list@)[k as int] == key@);
                        }
                        k = k + 1;
                    }
                    proof {
                        if found {
                            let t = choose|t: int| 0 <= t < k && #[trigger] key_list_view(list@)[t] == key@;
                            assert(kv[idx as int][t] == key@);
                            assert(kv[idx as int].contains(key@));
                        } else {
                            assert forall|t: int| 0 <= t < kv[idx as int].len() implies kv[idx as int][t] != key@ by {
                                assert(key_list_view(list@)[t] == kv[idx as int][t]);
                            }
                            assert(!kv[idx as int].contains(key@));
                        }
                    }
                    if found {
                        proof {
                            assert(is_first_list(kv, key@, idx as int));
                            let c = choose|i: int| #[trigger] is_first_list(kv, key@, i);
                            assert(is_first_list(kv, key@, c));
                            assert(!(c < idx as int));
                            assert(!((idx as int) < c));
                            assert(self@ == PartitionerView::List { keys: kv });
                            assert(list_shard(kv, key@) == idx as u32);
                        }
                        return idx as u32;
                    }
                    idx = idx + 1;
                }
                assert(forall|i: int| !#[trigger] is_first_list(kv, key@, i));
                0
            },
            Partitioner::Time { interval_seconds } => {
                if key.len() >= 8 {
                    let ts = read_timestamp(key);
                    let iv = *interval_seconds;
                    assert(iv != 0 ==> (iv as i64) != 0) by (bit_vector);
                    let ua = unsigned_magnitude(ts);
                    let ub = unsigned_magnitude(iv as i64);
                    let q = ua / ub;
                    (q % (shard_count as u64)) as u32
                } else {
                    0
                }
            },
        }
    }
}

impl Default for Partitioner {
    fn default() -> (r: Self)
        ensures
            r == (Partitioner::Hash { hash_fn: HashFunction::Murmur3 }),
    {
        Partitioner::Hash { hash_fn: HashFunction::Murmur3 }
    }
}

/// One end of a key range.
#[derive(Debug, Clone)]
pub enum KeyBound {
    /// The bound includes this key.
    Included(Vec<u8>),
    /// The bound excludes this key.
    Excluded(Vec<u8>),
    /// No bound.
    Unbounded,
}

/// Mathematical value of a [`KeyBound`].
pub enum KeyBoundView {
    Included(Seq<u8>),
    Excluded(Seq<u8>),
    Unbounded,
}

impl View for KeyBound {
    type V = KeyBoundView;

    open spec fn view(&self) -> KeyBoundView {
        match self {
            KeyBound::Included(k) => KeyBoundView::Included(k@),
            KeyBound::Excluded(k) => KeyBoundView::Excluded(k@),
            KeyBound::Unbounded => KeyBoundView::Unbounded,
        }
    }
}

/// `key` is at or after the start bound `b`.
pub open spec fn after_start(b: KeyBoundView, key: Seq<u8>) -> bool {
    match b {
        KeyBoundView::Included(s) => lex_le(s, key),
        KeyBoundView::Excluded(s) => lex_lt(s, key),
        KeyBoundView::Unbounded => true,
    }
}

/// `key` is at or before the end bound `b`.
pub open spec fn before_end(b: KeyBoundView, key: Seq<u8>) -> bool {
    match b {
        KeyBoundView::Included(e) => lex_le(key, e),
        KeyBoundView::Excluded(e) => lex_lt(key, e),
        KeyBoundView::Unbounded => true,
    }
}

/// Bounds of a range scan.
#[derive(Debug, Clone)]
pub struct KeyRange {
    pub start: KeyBound,
    pub end: KeyBound,
    /// Maximum number of results.
    pub limit: Option<usize>,
    /// Scan from the end backwards.
    pub reverse: bool,
}

impl KeyRange {
    /// Whether the range's bounds admit `key`.
    pub open spec fn contains(&self, key: Seq<u8>) -> bool {
        after_start(self.start@, key) && before_end(self.end@, key)
    }

    /// A range over all keys.
    pub fn all() -> (r: Self)
        ensures
            r.start@ == KeyBoundView::Unbounded,
            r.end@ == KeyBoundView::Unbounded,
            r.limit == None::<usize>,
            !r.reverse,
    {
        KeyRange { start: KeyBound::Unbounded, end: KeyBound::Unbounded, limit: None, reverse: false }
    }

    /// A range with the given bounds.
    pub fn new(start: KeyBound, end: KeyBound) -> (r: Self)
        ensures
            r.start@ == start@,
            r.end@ == end@,
            r.limit == None::<usize>,
            !r.reverse,
    {
        KeyRange { start, end, limit: None, reverse: false }
    }

    /// The range from `start` (included) to `end` (excluded).
    pub fn from_to(start: Vec<u8>, end: Vec<u8>) -> (r: Self)
        ensures
            r.start@ == KeyBoundView::Included(start@),
            r.end@ == KeyBoundView::Excluded(end@),
            r.limit == None::<usize>,
            !r.reverse,
    {
        KeyRange { start: KeyBound::Included(start), end: KeyBound::Excluded(end), limit: None, reverse: false }
    }

    /// The range of exactly the keys that start with `prefix`: from the prefix
    /// (included) to the prefix without its trailing 255 bytes and with its
    /// last byte incremented (excluded); unbounded above when no such byte is
    /// left (an empty prefix, or one of 255 bytes only).
    pub fn prefix(prefix: Vec<u8>) -> (r: Self)
        ensures
            r.start@ == KeyBoundView::Included(prefix@),
            r.end@ == match prefix_upper(prefix@) {
                Some(e) => KeyBoundView::Excluded(e),
                None => KeyBoundView::Unbounded,
            },
            r.limit == None::<usize>,
            !r.reverse,
            forall|k: Seq<u8>| #[trigger] r.contains(k) <==> has_prefix(k, prefix@),
    {
        let mut end = crate::lsm::memtable::copy_bytes(&prefix);
        while end.len() > 0 && end[end.len() - 1] == 255
            invariant
                trim255(end@) == trim255(prefix@),
            decreases end@.len(),
        {
            let ghost before = end@;
            end.pop();
            assert(end@ =~= before.drop_last());
        }
        assert(trim255(end@) == end@);
        let end_bound = if end.len() == 0 {
            KeyBound::Unbounded
        } else {
            let n = end.len();
            let last = end[n - 1];
            end.set(n - 1, last + 1);
            KeyBound::Excluded(end)
        };
        let r = KeyRange { start: KeyBound::Included(prefix), end: end_bound, limit: None, reverse: false };
        assert forall|k: Seq<u8>| #[trigger] r.contains(k) <==> has_prefix(k, r.start@->Included_0) by {
            lemma_prefix_range(r.start@->Included_0, k);
        }
        r
    }

    /// The same range limited to `limit` results.
    pub fn with_limit(self, limit: usize) -> (r: Self)
        ensures
            r.start@ == self.start@,
            r.end@ == self.end@,
            r.limit == Some(limit),
            r.reverse == self.reverse,
    {
        KeyRange { limit: Some(limit), ..self }
    }

    /// The same range scanned in reverse.
    pub fn reversed(self) -> (r: Self)
        ensures
            r.start@ == self.start@,
            r.end@ == self.end@,
            r.limit == self.limit,
            r.reverse,
    {
        KeyRange { reverse: true, ..self }
    }
}

/// Whether `key` lies within the bounds of `range`.
pub fn key_in_range(key: &[u8], range: &KeyRange) -> (r: bool)
    ensures
        r == range.contains(key@),
{
    proof {
        crate::keyorder::lemma_lex_irreflexive(key@);
    }
    let after_start = match &range.start {
        KeyBound::Included(s) => {
            proof { crate::keyorder::lemma_lex_trichotomy(key@, s@); }
            !key_less(key, s.as_slice())
        },
        KeyBound::Excluded(s) => key_less(s.as_slice(), key),
        KeyBound::Unbounded => true,
    };
    let before_end = match &range.end {
        KeyBound::Included(e) => {
            proof { crate::keyorder::lemma_lex_trichotomy(key@, e@); }
            !key_less(e.as_slice(), key)
        },
        KeyBound::Excluded(e) => key_less(key, e.as_slice()),
        KeyBound::Unbounded => true,
    };
    after_start && before_end
}

/// `p` with its last byte incremented.
pub open spec fn prefix_end(p: Seq<u8>) -> Seq<u8> {
    if p.len() == 0 {
        p
    } else if p.last() < 255 {
        p.update(p.len() - 1, (p.last() + 1) as u8)
    } else {
        p.push(0)
    }
}

/// `p` without its trailing 255 bytes.
pub open spec fn trim255(p: Seq<u8>) -> Seq<u8>
    decreases p.len(),
{
    if p.len() > 0 && p.last() == 255 {
        trim255(p.drop_last())
    } else {
        p
    }
}

/// The least key above all keys with prefix `p`: `p` without its trailing 255
/// bytes, its last byte incremented; none where no byte is left.
pub open spec fn prefix_upper(p: Seq<u8>) -> Option<Seq<u8>> {
    let q = trim255(p);
    if q.len() == 0 {
        None
    } else {
        Some(prefix_end(q))
    }
}

/// `n` bytes of 255.
pub open spec fn all_ff(n: nat) -> Seq<u8> {
    Seq::new(n, |i: int| 255u8)
}

proof fn lemma_trim255(p: Seq<u8>)
    ensures
        p =~= trim255(p) + all_ff((p.len() - trim255(p).len()) as nat),
        trim255(p).len() <= p.len(),
        trim255(p).len() > 0 ==> trim255(p).last() < 255,
    decreases p.len(),
{
    if p.len() > 0 && p.last() == 255 {
        lemma_trim255(p.drop_last());
        let q = trim255(p);
        assert(p =~= p.drop_last().push(255u8));
        assert(all_ff((p.len() - q.len()) as nat) =~= all_ff((p.drop_last().len() - q.len()) as nat).push(255u8));
    } else {
        assert(all_ff(0) =~= Seq::<u8>::empty());
    }
}

/// Keys at or above a run of 255 bytes start with that run.
proof fn lemma_ff_floor(m: nat, k: Seq<u8>)
    requires
        lex_le(all_ff(m), k),
    ensures
        has_prefix(k, all_ff(m)),
    decreases m,
{
    let f = all_ff(m);
    if m == 0 {
        assert(k.subrange(0, 0) =~= f);
    } else {
        if f == k {
            assert(k.subrange(0, m as int) =~= f);
        } else {
            assert(k.len() > 0);
            assert(f[0] == 255u8);
            assert(k[0] == 255u8);
            assert(f.drop_first() =~= all_ff((m - 1) as nat));
            lemma_ff_floor((m - 1) as nat, k.drop_first());
            assert(k.subrange(0, m as int) =~= f) by {
                assert forall|i: int| 0 <= i < m implies k.subrange(0, m as int)[i] == f[i] by {
                    if i > 0 {
                        assert(k.drop_first().subrange(0, (m - 1) as int)[i - 1] == all_ff((m - 1) as nat)[i - 1]);
                    }
                }
            }
        }
    }
}

/// `p` is a prefix of `k`.
pub open spec fn has_prefix(k: Seq<u8>, p: Seq<u8>) -> bool {
    p.len() <= k.len() && k.subrange(0, p.len() as int) == p
}

proof fn lemma_prefix_le(p: Seq<u8>, k: Seq<u8>)
    requires
        has_prefix(k, p),
    ensures
        lex_le(p, k),
    decreases p.len(),
{
    if p.len() > 0 {
        assert(k[0] == p[0]) by {
            assert(k.subrange(0, p.len() as int)[0] == k[0]);
        }
        assert(k.drop_first().subrange(0, p.drop_first().len() as int) =~= p.drop_first()) by {
            assert forall|i: int| 0 <= i < p.drop_first().len() implies k.drop_first().subrange(0, p.drop_first().len() as int)[i]
                == p.drop_first()[i] by {
                assert(k.subrange(0, p.len() as int)[i + 1] == k[i + 1]);
            }
        }
        lemma_prefix_le(p.drop_first(), k.drop_first());
        if p.drop_first() == k.drop_first() {
            assert(p =~= k) by {
                assert forall|i: int| 0 <= i < p.len() implies p[i] == k[i] by {
                    if i > 0 {
                        assert(p.drop_first()[i - 1] == k.drop_first()[i - 1]);
                    }
                }
            }
        }
    } else if k.len() == 0 {
        assert(p =~= k);
    }
}

proof fn lemma_prefix_below_end(p: Seq<u8>, k: Seq<u8>)
    requires
        has_prefix(k, p),
        p.len() > 0,
        p.last() < 255,
    ensures
        lex_lt(k, prefix_end(p)),
    decreases p.len(),
{
    let q = prefix_end(p);
    assert(k[0] == p[0]) by {
        assert(k.subrange(0, p.len() as int)[0] == k[0]);
    }
    if p.len() == 1 {
        assert(q[0] == p[0] + 1);
    } else {
        assert(q[0] == p[0]);
        assert(q.drop_first() =~= prefix_end(p.drop_first()));
        assert(k.drop_first().subrange(0, p.drop_first().len() as int) =~= p.drop_first()) by {
            assert forall|i: int| 0 <= i < p.drop_first().len() implies k.drop_first().subrange(0, p.drop_first().len() as int)[i]
                == p.drop_first()[i] by {
                assert(k.subrange(0, p.len() as int)[i + 1] == k[i + 1]);
            }
        }
        lemma_prefix_below_end(p.drop_first(), k.drop_first());
    }
}

proof fn lemma_in_prefix_range(p: Seq<u8>, k: Seq<u8>)
    requires
        p.len() > 0,
        p.last() < 255,
        lex_le(p, k),
        lex_lt(k, prefix_end(p)),
    ensures
        has_prefix(k, p),
    decreases p.len(),
{
    let q = prefix_end(p);
    if k.len() == 0 {
        assert(!lex_lt(p, k));
        assert(p != k);
    } else {
        if p.len() == 1 {
            assert(q[0] == p[0] + 1);
            assert(q.len() == 1);
            if k[0] == q[0] {
                assert(!lex_lt(k.drop_first(), q.drop_first()));
            }
            assert(k[0] < q[0]);
            if k[0] != p[0] {
                if p != k {
                    assert(lex_lt(p, k));
                    assert(p[0] < k[0]);
                }
            }
            assert(k[0] == p[0]);
            assert(k.subrange(0, 1) =~= p);
        } else {
            assert(q[0] == p[0]);
            if k[0] != p[0] {
                if p != k {
                    assert(lex_lt(p, k));
                    assert(p[0] < k[0]);
                    assert(k[0] < q[0]);
                }
            }
            assert(k[0] == p[0]);
            assert(q.drop_first() =~= prefix_end(p.drop_first()));
            if p == k {
                assert(p.drop_first() == k.drop_first());
            }
            lemma_in_prefix_range(p.drop_first(), k.drop_first());
            assert(k.subrange(0, p.len() as int) =~= p) by {
                assert forall|i: int| 0 <= i < p.len() implies k.subrange(0, p.len() as int)[i] == p[i] by {
                    if i > 0 {
                        assert(k.drop_first().subrange(0, p.drop_first().len() as int)[i - 1] == p.drop_first()[i - 1]);
                    }
                }
            }
        }
    }
}

/// A prefix range holds exactly the keys that start with the prefix.
pub proof fn lemma_prefix_range(prefix: Seq<u8>, key: Seq<u8>)
    ensures
        (lex_le(prefix, key) && match prefix_upper(prefix) {
            Some(e) => lex_lt(key, e),
            None => true,
        }) <==> has_prefix(key, prefix),
{
    lemma_trim255(prefix);
    let q = trim255(prefix);
    let m = (prefix.len() - q.len()) as nat;
    let f = all_ff(m);
    if has_prefix(key, prefix) {
        lemma_prefix_le(prefix, key);
        if q.len() > 0 {
            assert(key.subrange(0, q.len() as int) =~= q) by {
                assert forall|i: int| 0 <= i < q.len() implies key.subrange(0, q.len() as int)[i] == q[i] by {
                    assert(key.subrange(0, prefix.len() as int)[i] == prefix[i]);
                    assert(prefix[i] == q[i]);
                }
            }
            lemma_prefix_below_end(q, key);
        }
    }
    let in_range = lex_le(prefix, key) && match prefix_upper(prefix) {
        Some(e) => lex_lt(key, e),
        None => true,
    };
    if in_range {
        if q.len() > 0 {
            assert(has_prefix(prefix, q)) by {
                assert(prefix.subrange(0, q.len() as int) =~= q);
            }
            lemma_prefix_le(q, prefix);
            crate::keyorder::lemma_lex_le_transitive(q, prefix, key);
            lemma_in_prefix_range(q, key);
        }
        assert(key.subrange(0, q.len() as int) =~= q) by {
            if q.len() == 0 {
            }
        }
        assert(prefix.subrange(0, q.len() as int) =~= q);
        crate::keyorder::lemma_lex_skip(prefix, key, q.len() as int);
        assert(prefix.skip(q.len() as int) =~= f);
        lemma_ff_floor(m, key.skip(q.len() as int));
        assert(key.subrange(0, prefix.len() as int) =~= prefix) by {
            assert forall|i: int| 0 <= i < prefix.len() implies key.subrange(0, prefix.len() as int)[i] == prefix[i] by {
                if i < q.len() {
                    assert(key.subrange(0, q.len() as int)[i] == q[i]);
                } else {
                    assert(key.skip(q.len() as int).subrange(0, m as int)[i - q.len()] == f[i - q.len()]);
                }
            }
        }
    }
}

impl Default for KeyRange {
    fn default() -> (r: Self)
        ensures
            r.start@ == KeyBoundView::Unbounded,
            r.end@ == KeyBoundView::Unbounded,
            r.limit == None::<usize>,
            !r.reverse,
    {
        Self::all()
    }
}

} // verus!
