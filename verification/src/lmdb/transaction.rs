//! Scanning inside a transaction over LMDB: the pairs the store returns are
//! overlaid with the transaction's buffered writes, since the store keeps no
//! versions of its own.
use vstd::prelude::*;
use crate::keyorder::{lemma_lex_irreflexive, lemma_lex_le_transitive, lemma_lex_transitive, lemma_lex_trichotomy, lex_le, lex_lt};
use crate::kvt::types::KeyRange;
use crate::lsm::iterator::{pair_views, PairView};
use crate::lsm::transaction::{op_views, TransactionState, TransactionStatus, WriteOp, WriteOpView};
use crate::kvt::error::KeyValueError;

verus! {

/// The pairs of `s` with key `k`, in order.
pub open spec fn with_key(s: Seq<PairView>, k: Seq<u8>) -> Seq<PairView>
    decreases s.len(),
{
    if s.len() == 0 {
        Seq::empty()
    } else if s.last().0 == k {
        with_key(s.drop_last(), k).push(s.last())
    } else {
        with_key(s.drop_last(), k)
    }
}

/// Keys never decrease along `s`.
pub open spec fn sorted_by_key(s: Seq<PairView>) -> bool {
    forall|i: int, j: int| 0 <= i < j < s.len() ==> lex_le(#[trigger] s[i].0, #[trigger] s[j].0)
}

/// Some pair of `s` has key `k`.
pub open spec fn has_key(s: Seq<PairView>, k: Seq<u8>) -> bool {
    exists|i: int| 0 <= i < s.len() && #[trigger] s[i].0 == k
}

/// The value a buffered write leaves: the value put, or `None` for a deletion.
pub open spec fn written_value(op: WriteOpView) -> Option<Seq<u8>> {
    match op {
        WriteOpView::Put { value, .. } => Some(value),
        WriteOpView::Delete { .. } => None,
    }
}

/// The last write of the transaction to each key of `shard` that `range` admits.
pub open spec fn scan_buffer(ops: Seq<(u64, WriteOpView)>, shard: u64, range: KeyRange) -> Map<Seq<u8>, Option<Seq<u8>>>
    decreases ops.len(),
{
    if ops.len() == 0 {
        Map::empty()
    } else {
        let m = scan_buffer(ops.drop_last(), shard, range);
        let (s, op) = ops.last();
        if s == shard && range.contains(op.key()) {
            m.insert(op.key(), written_value(op))
        } else {
            m
        }
    }
}

/// The transaction has written something to `shard`.
pub open spec fn shard_touched(ops: Seq<(u64, WriteOpView)>, shard: u64) -> bool {
    exists|i: int| 0 <= i < ops.len() && (#[trigger] ops[i]).0 == shard
}

/// The store's pairs after the buffered writes `m`: deleted keys drop out and
/// overwritten keys take their new values, in the store's order.
pub open spec fn overlay(base: Seq<PairView>, m: Map<Seq<u8>, Option<Seq<u8>>>) -> Seq<PairView>
    decreases base.len(),
{
    if base.len() == 0 {
        Seq::empty()
    } else {
        let rest = overlay(base.drop_last(), m);
        let (k, v) = base.last();
        if m.contains_key(k) {
            match m[k] {
                Some(nv) => rest.push((k, nv)),
                None => rest,
            }
        } else {
            rest.push((k, v))
        }
    }
}

/// `r` is the merge of the store's pairs `base` with the buffered writes `m`:
/// sorted by key, each key of the store carrying its overlaid pairs in the
/// store's order, and each key only the buffer puts carrying its buffered value.
pub open spec fn is_buffered_merge(r: Seq<PairView>, base: Seq<PairView>, m: Map<Seq<u8>, Option<Seq<u8>>>) -> bool {
    &&& sorted_by_key(r)
    &&& forall|k: Seq<u8>| #[trigger] with_key(r, k) == if has_key(base, k) {
        with_key(overlay(base, m), k)
    } else if m.contains_key(k) && m[k] is Some {
        seq![(k, m[k]->0)]
    } else {
        Seq::empty()
    }
}

/// The pairs a scan returns from the merged pairs `s`: reversed if asked, then
/// cut to the limit.
pub open spec fn finish_scan(s: Seq<PairView>, reverse: bool, limit: Option<usize>) -> Seq<PairView> {
    let r = if reverse { s.reverse() } else { s };
    match limit {
        Some(n) => if n < r.len() { r.take(n as int) } else { r },
        None => r,
    }
}

pub proof fn lemma_with_key_concat(a: Seq<PairView>, b: Seq<PairView>, k: Seq<u8>)
    ensures
        with_key(a + b, k) == with_key(a, k) + with_key(b, k),
    decreases b.len(),
{
    if b.len() == 0 {
        assert(a + b =~= a);
        assert(with_key(a, k) + Seq::<PairView>::empty() =~= with_key(a, k));
    } else {
        lemma_with_key_concat(a, b.drop_last(), k);
        assert((a + b).drop_last() =~= a + b.drop_last());
        assert((a + b).last() == b.last());
        if b.last().0 == k {
            assert(with_key(a, k) + with_key(b.drop_last(), k).push(b.last()) =~= (with_key(a, k) + with_key(
                b.drop_last(),
                k,
            )).push(b.last()));
        }
    }
}

/// The pairs with a key are there exactly when some pair has it, and all carry it.
pub proof fn lemma_with_key_members(s: Seq<PairView>, k: Seq<u8>)
    ensures
        with_key(s, k).len() > 0 <==> has_key(s, k),
        forall|i: int| 0 <= i < with_key(s, k).len() ==> (#[trigger] with_key(s, k)[i]).0 == k,
        with_key(s, k).len() <= s.len(),
    decreases s.len(),
{
    if s.len() > 0 {
        lemma_with_key_members(s.drop_last(), k);
        if has_key(s, k) && s.last().0 != k {
            let i = choose|i: int| 0 <= i < s.len() && #[trigger] s[i].0 == k;
            assert(s.drop_last()[i].0 == k);
        }
        if has_key(s.drop_last(), k) {
            let i = choose|i: int| 0 <= i < s.drop_last().len() && #[trigger] s.drop_last()[i].0 == k;
            assert(s[i].0 == k);
        }
        if s.last().0 == k {
            assert(s[s.len() - 1].0 == k);
        }
    }
}

/// The pairs of a sequence with one key, for a sequence whose keys all differ
/// from it, are none.
proof fn lemma_with_key_absent(s: Seq<PairView>, k: Seq<u8>)
    requires
        forall|i: int| 0 <= i < s.len() ==> (#[trigger] s[i]).0 != k,
    ensures
        with_key(s, k) == Seq::<PairView>::empty(),
{
    lemma_with_key_members(s, k);
}

/// Inserting `x` into sorted `t` after every pair whose key is not above its own
/// keeps `t` sorted and appends `x` to the pairs of its key.
pub proof fn lemma_insert_sorted(t: Seq<PairView>, x: PairView, p: int)
    requires
        sorted_by_key(t),
        0 <= p <= t.len(),
        forall|j: int| 0 <= j < p ==> !lex_lt(x.0, #[trigger] t[j].0),
        p < t.len() ==> lex_lt(x.0, t[p].0),
    ensures
        sorted_by_key(t.insert(p, x)),
        forall|k: Seq<u8>| #[trigger] with_key(t.insert(p, x), k) == if k == x.0 {
            with_key(t, k).push(x)
        } else {
            with_key(t, k)
        },
{
    let u = t.insert(p, x);
    assert forall|j: int| p <= j < t.len() implies lex_lt(x.0, #[trigger] t[j].0) by {
        if j > p {
            assert(lex_le(t[p].0, t[j].0));
            lemma_lex_le_transitive(x.0, t[p].0, t[j].0);
        }
    }
    assert forall|j: int| 0 <= j < p implies lex_le(#[trigger] t[j].0, x.0) by {
        lemma_lex_trichotomy(x.0, t[j].0);
    }
    assert forall|i: int, j: int| 0 <= i < j < u.len() implies lex_le(#[trigger] u[i].0, #[trigger] u[j].0) by {
        if i < p && j < p {
            assert(u[i] == t[i] && u[j] == t[j]);
        } else if i < p && j == p {
            assert(u[i] == t[i] && u[j] == x);
        } else if i < p {
            assert(u[i] == t[i] && u[j] == t[j - 1]);
        } else if i == p {
            assert(u[i] == x && u[j] == t[j - 1]);
        } else {
            assert(u[i] == t[i - 1] && u[j] == t[j - 1]);
        }
    }
    let a = t.take(p);
    let b = t.skip(p);
    assert(t =~= a + b);
    assert(u =~= a + seq![x] + b);
    assert forall|k: Seq<u8>| #[trigger] with_key(u, k) == if k == x.0 {
        with_key(t, k).push(x)
    } else {
        with_key(t, k)
    } by {
        lemma_with_key_concat(a + seq![x], b, k);
        lemma_with_key_concat(a, seq![x], k);
        lemma_with_key_concat(a, b, k);
        assert(seq![x].drop_last() =~= Seq::<PairView>::empty());
        assert(seq![x].last() == x);
        assert(with_key(seq![x].drop_last(), k) =~= Seq::<PairView>::empty());
        if k == x.0 {
            assert forall|i: int| 0 <= i < b.len() implies (#[trigger] b[i]).0 != k by {
                assert(b[i] == t[p + i]);
                lemma_lex_irreflexive(k);
            }
            lemma_with_key_absent(b, k);
            assert(with_key(seq![x], k) =~= seq![x]);
            assert(with_key(a, k) + seq![x] + Seq::<PairView>::empty() =~= (with_key(a, k) + Seq::<PairView>::empty()).push(x));
        } else {
            assert(with_key(seq![x], k) =~= Seq::<PairView>::empty());
            assert(with_key(a, k) + Seq::<PairView>::empty() =~= with_key(a, k));
        }
    }
}

/// Two sorted sequences with the same pairs for every key are equal.
pub proof fn lemma_sorted_by_key_unique(a: Seq<PairView>, b: Seq<PairView>)
    requires
        sorted_by_key(a),
        sorted_by_key(b),
        forall|k: Seq<u8>| #[trigger] with_key(a, k) == with_key(b, k),
    ensures
        a == b,
    decreases a.len() + b.len(),
{
    if a.len() == 0 || b.len() == 0 {
        if a.len() > 0 {
            lemma_with_key_members(a, a[0].0);
            lemma_with_key_members(b, a[0].0);
            assert(has_key(a, a[0].0));
        }
        if b.len() > 0 {
            lemma_with_key_members(a, b[0].0);
            lemma_with_key_members(b, b[0].0);
            assert(has_key(b, b[0].0));
        }
        assert(a =~= b);
    } else {
        let x = a.last();
        let y = b.last();
        let kx = x.0;
        let ky = y.0;
        lemma_with_key_members(a, kx);
        lemma_with_key_members(b, kx);
        lemma_with_key_members(a, ky);
        lemma_with_key_members(b, ky);
        assert(has_key(a, kx)) by {
            assert(a[a.len() - 1].0 == kx);
        }
        assert(has_key(b, ky)) by {
            assert(b[b.len() - 1].0 == ky);
        }
        let i = choose|i: int| 0 <= i < b.len() && #[trigger] b[i].0 == kx;
        let j = choose|j: int| 0 <= j < a.len() && #[trigger] a[j].0 == ky;
        if i < b.len() - 1 {
            assert(lex_le(b[i].0, b[b.len() - 1].0));
        }
        if j < a.len() - 1 {
            assert(lex_le(a[j].0, a[a.len() - 1].0));
        }
        assert(kx == ky) by {
            if kx != ky {
                lemma_lex_le_transitive(kx, ky, kx);
                lemma_lex_irreflexive(kx);
            }
        }
        assert(with_key(a, kx).last() == x);
        assert(with_key(b, kx).last() == y);
        assert(x == y);
        let a2 = a.drop_last();
        let b2 = b.drop_last();
        assert forall|k: Seq<u8>| #[trigger] with_key(a2, k) == with_key(b2, k) by {
            assert(with_key(a, k) == with_key(b, k));
            if k == kx {
                assert(with_key(a, k).drop_last() =~= with_key(a2, k));
                assert(with_key(b, k).drop_last() =~= with_key(b2, k));
            }
        }
        assert forall|p: int, q: int| 0 <= p < q < a2.len() implies lex_le(#[trigger] a2[p].0, #[trigger] a2[q].0) by {
            assert(a2[p] == a[p] && a2[q] == a[q]);
        }
        assert forall|p: int, q: int| 0 <= p < q < b2.len() implies lex_le(#[trigger] b2[p].0, #[trigger] b2[q].0) by {
            assert(b2[p] == b[p] && b2[q] == b[q]);
        }
        lemma_sorted_by_key_unique(a2, b2);
        assert(a =~= a2.push(x));
        assert(b =~= b2.push(y));
    }
}


/// Views of buffer slots: a key and its last buffered value.
pub open spec fn slot_views(v: Seq<(Vec<u8>, Option<Vec<u8>>)>) -> Seq<(Seq<u8>, Option<Seq<u8>>)> {
    v.map_values(|x: (Vec<u8>, Option<Vec<u8>>)| (x.0@, opt_bytes(x.1)))
}

/// The view of optional bytes.
pub open spec fn opt_bytes(v: Option<Vec<u8>>) -> Option<Seq<u8>> {
    match v {
        Some(b) => Some(b@),
        None => None,
    }
}

/// The slots list the map's entries once each.
pub open spec fn slots_match(s: Seq<(Seq<u8>, Option<Seq<u8>>)>, m: Map<Seq<u8>, Option<Seq<u8>>>) -> bool {
    &&& forall|i: int, j: int| 0 <= i < j < s.len() ==> #[trigger] s[i].0 != #[trigger] s[j].0
    &&& forall|i: int| 0 <= i < s.len() ==> m.contains_key(#[trigger] s[i].0) && m[s[i].0] == s[i].1
    &&& forall|k: Seq<u8>| #[trigger] m.contains_key(k) ==> exists|i: int| 0 <= i < s.len() && #[trigger] s[i].0 == k
}

/// The position of the slot of `key`, if any.
fn find_slot(slots: &Vec<(Vec<u8>, Option<Vec<u8>>)>, key: &[u8]) -> (r: Option<usize>)
    ensures
        match r {
            Some(i) => i < slots@.len() && slot_views(slots@)[i as int].0 == key@,
            None => forall|i: int| 0 <= i < slots@.len() ==> #[trigger] slot_views(slots@)[i].0 != key@,
        },
{
    let mut i: usize = 0;
    while i < slots.len()
        invariant
            i <= slots@.len(),
            forall|j: int| 0 <= j < i ==> #[trigger] slot_views(slots@)[j].0 != key@,
        decreases slots@.len() - i,
    {
        assert(slot_views(slots@)[i as int].0 == slots@[i as int].0@);
        if crate::keyorder::key_eq(slots[i].0.as_slice(), key) {
            return Some(i);
        }
        i = i + 1;
    }
    None
}

/// Collects, for the scan of `shard` over `range`, the last buffered write to each
/// key, and whether anything was written to the shard.
fn collect_buffer(ops: &Vec<(u64, WriteOp)>, shard: u64, range: &KeyRange) -> (r: (Vec<(Vec<u8>, Option<Vec<u8>>)>, bool))
    ensures
        slots_match(slot_views(r.0@), scan_buffer(op_views(ops@), shard, *range)),
        r.1 == shard_touched(op_views(ops@), shard),
{
    let ghost ov = op_views(ops@);
    let mut slots: Vec<(Vec<u8>, Option<Vec<u8>>)> = Vec::new();
    let mut touched = false;
    let mut i: usize = 0;
    assert(ov.take(0) =~= Seq::<(u64, WriteOpView)>::empty());
    while i < ops.len()
        invariant
            ov == op_views(ops@),
            i <= ops@.len(),
            slots_match(slot_views(slots@), scan_buffer(ov.take(i as int), shard, *range)),
            touched == shard_touched(ov.take(i as int), shard),
        decreases ops@.len() - i,
    {
        let ghost before = slot_views(slots@);
        let ghost m0 = scan_buffer(ov.take(i as int), shard, *range);
        let s = ops[i].0;
        let (key, value) = match &ops[i].1 {
            WriteOp::Put { key, value } => (key, Some(crate::lsm::memtable::copy_bytes(value))),
            WriteOp::Delete { key } => (key, None),
        };
        proof {
            assert(ov.take(i + 1).drop_last() =~= ov.take(i as int));
            assert(ov.take(i + 1).last() == ov[i as int]);
            assert(ov[i as int] == (s, ops@[i as int].1@));
            assert(ops@[i as int].1@.key() == key@);
            assert(opt_bytes(value) == written_value(ops@[i as int].1@));
        }
        if s == shard {
            touched = true;
            if crate::kvt::types::key_in_range(key.as_slice(), range) {
                let ghost m1 = m0.insert(key@, opt_bytes(value));
                match find_slot(&slots, key.as_slice()) {
                    Some(j) => {
                        slots.set(j, (crate::lsm::memtable::copy_bytes(key), value));
                        proof {
                            assert(slot_views(slots@) =~= before.update(j as int, (key@, opt_bytes(value))));
                            assert forall|k: Seq<u8>| #[trigger] m1.contains_key(k) implies exists|q: int|
                                0 <= q < slot_views(slots@).len() && #[trigger] slot_views(slots@)[q].0 == k by {
                                if k != key@ {
                                    let q = choose|q: int| 0 <= q < before.len() && #[trigger] before[q].0 == k;
                                    assert(slot_views(slots@)[q].0 == k);
                                } else {
                                    assert(slot_views(slots@)[j as int].0 == k);
                                }
                            }
                        }
                    },
                    None => {
                        slots.push((crate::lsm::memtable::copy_bytes(key), value));
                        proof {
                            assert(slot_views(slots@) =~= before.push((key@, opt_bytes(value))));
                            assert forall|k: Seq<u8>| #[trigger] m1.contains_key(k) implies exists|q: int|
                                0 <= q < slot_views(slots@).len() && #[trigger] slot_views(slots@)[q].0 == k by {
                                if k != key@ {
                                    let q = choose|q: int| 0 <= q < before.len() && #[trigger] before[q].0 == k;
                                    assert(slot_views(slots@)[q].0 == k);
                                } else {
                                    assert(slot_views(slots@)[before.len() as int].0 == k);
                                }
                            }
                        }
                    },
                }
            }
        }
        proof {
            let t = ov.take(i + 1);
            if shard_touched(t, shard) && !shard_touched(ov.take(i as int), shard) {
                let q = choose|q: int| 0 <= q < t.len() && (#[trigger] t[q]).0 == shard;
                if q < i {
                    assert(ov.take(i as int)[q] == t[q]);
                }
            }
            if shard_touched(ov.take(i as int), shard) {
                let q = choose|q: int| 0 <= q < i && (#[trigger] ov.take(i as int)[q]).0 == shard;
                assert(t[q] == ov.take(i as int)[q]);
            }
            if s == shard {
                assert(t[i as int].0 == shard);
            }
        }
        i = i + 1;
    }
    assert(ov.take(i as int) =~= ov);
    (slots, touched)
}


/// Keys of the overlaid pairs are keys of the store's pairs.
proof fn lemma_overlay_keys(base: Seq<PairView>, m: Map<Seq<u8>, Option<Seq<u8>>>)
    ensures
        forall|i: int| 0 <= i < overlay(base, m).len() ==> has_key(base, #[trigger] overlay(base, m)[i].0),
    decreases base.len(),
{
    if base.len() > 0 {
        lemma_overlay_keys(base.drop_last(), m);
        let rest = overlay(base.drop_last(), m);
        assert forall|i: int| 0 <= i < overlay(base, m).len() implies has_key(base, #[trigger] overlay(base, m)[i].0) by {
            if i < rest.len() {
                assert(overlay(base, m)[i] == rest[i]);
                let j = choose|j: int| 0 <= j < base.drop_last().len() && #[trigger] base.drop_last()[j].0 == rest[i].0;
                assert(base[j].0 == rest[i].0);
            } else {
                assert(overlay(base, m)[i].0 == base.last().0);
                assert(base[base.len() - 1].0 == base.last().0);
            }
        }
    }
}

/// The store's pairs overlaid with the buffered writes of `slots`.
fn overlay_pairs(base: &Vec<(Vec<u8>, Vec<u8>)>, slots: &Vec<(Vec<u8>, Option<Vec<u8>>)>, Ghost(m): Ghost<Map<Seq<u8>, Option<Seq<u8>>>>) -> (r: Vec<(Vec<u8>, Vec<u8>)>)
    requires
        slots_match(slot_views(slots@), m),
    ensures
        pair_views(r@) == overlay(pair_views(base@), m),
{
    let ghost bv = pair_views(base@);
    let mut out: Vec<(Vec<u8>, Vec<u8>)> = Vec::new();
    let mut j: usize = 0;
    assert(bv.take(0) =~= Seq::<PairView>::empty());
    assert(pair_views(out@) =~= Seq::<PairView>::empty());
    while j < base.len()
        invariant
            bv == pair_views(base@),
            j <= base@.len(),
            slots_match(slot_views(slots@), m),
            pair_views(out@) == overlay(bv.take(j as int), m),
        decreases base@.len() - j,
    {
        let (k, v) = (&base[j].0, &base[j].1);
        proof {
            assert(bv.take(j + 1).drop_last() =~= bv.take(j as int));
            assert(bv.take(j + 1).last() == bv[j as int]);
            assert(bv[j as int] == (k@, v@));
        }
        let ghost before = pair_views(out@);
        match find_slot(slots, k.as_slice()) {
            Some(i) => {
                proof {
                    assert(m.contains_key(k@) && m[k@] == slot_views(slots@)[i as int].1);
                }
                match &slots[i].1 {
                    Some(nv) => {
                        let p = (crate::lsm::memtable::copy_bytes(k), crate::lsm::memtable::copy_bytes(nv));
                        out.push(p);
                        assert(pair_views(out@) =~= before.push((k@, nv@)));
                    },
                    None => {},
                }
            },
            None => {
                proof {
                    if m.contains_key(k@) {
                        let q = choose|q: int| 0 <= q < slot_views(slots@).len() && #[trigger] slot_views(slots@)[q].0 == k@;
                    }
                }
                let p = (crate::lsm::memtable::copy_bytes(k), crate::lsm::memtable::copy_bytes(v));
                out.push(p);
                assert(pair_views(out@) =~= before.push((k@, v@)));
            },
        }
        j = j + 1;
    }
    assert(bv.take(j as int) =~= bv);
    out
}

/// Whether some pair of `base` has key `key`.
fn base_has_key(base: &Vec<(Vec<u8>, Vec<u8>)>, key: &[u8]) -> (r: bool)
    ensures
        r == has_key(pair_views(base@), key@),
{
    let ghost bv = pair_views(base@);
    let mut i: usize = 0;
    while i < base.len()
        invariant
            bv == pair_views(base@),
            i <= base@.len(),
            forall|j: int| 0 <= j < i ==> (#[trigger] bv[j]).0 != key@,
        decreases base@.len() - i,
    {
        assert(bv[i as int].0 == base@[i as int].0@);
        if crate::keyorder::key_eq(base[i].0.as_slice(), key) {
            return true;
        }
        i = i + 1;
    }
    false
}

/// The buffered puts to keys the store did not return, as pairs.
fn added_pairs(base: &Vec<(Vec<u8>, Vec<u8>)>, slots: &Vec<(Vec<u8>, Option<Vec<u8>>)>, Ghost(m): Ghost<Map<Seq<u8>, Option<Seq<u8>>>>) -> (r: Vec<(Vec<u8>, Vec<u8>)>)
    requires
        slots_match(slot_views(slots@), m),
    ensures
        forall|k: Seq<u8>| #[trigger] with_key(pair_views(r@), k) == if !has_key(pair_views(base@), k) && m.contains_key(k) && m[k] is Some {
            seq![(k, m[k]->0)]
        } else {
            Seq::<PairView>::empty()
        },
{
    let ghost bv = pair_views(base@);
    let ghost sv = slot_views(slots@);
    let mut out: Vec<(Vec<u8>, Vec<u8>)> = Vec::new();
    let mut t: usize = 0;
    assert forall|k: Seq<u8>| #[trigger] with_key(pair_views(out@), k) == Seq::<PairView>::empty() by {
        assert(pair_views(out@) =~= Seq::<PairView>::empty());
    }
    while t < slots.len()
        invariant
            bv == pair_views(base@),
            sv == slot_views(slots@),
            slots_match(sv, m),
            t <= sv.len(),
            forall|k: Seq<u8>| #[trigger] with_key(pair_views(out@), k) == if (exists|q: int| 0 <= q < t && #[trigger] sv[q].0 == k)
                && !has_key(bv, k) && m.contains_key(k) && m[k] is Some {
                seq![(k, m[k]->0)]
            } else {
                Seq::<PairView>::empty()
            },
        decreases sv.len() - t,
    {
        let ghost before = pair_views(out@);
        let k = &slots[t].0;
        assert(sv[t as int].0 == k@);
        assert(m.contains_key(k@) && m[k@] == sv[t as int].1);
        match &slots[t].1 {
            Some(v) => {
                if !base_has_key(base, k.as_slice()) {
                    let p = (crate::lsm::memtable::copy_bytes(k), crate::lsm::memtable::copy_bytes(v));
                    out.push(p);
                    proof {
                        assert(pair_views(out@) =~= before.push((k@, v@)));
                        assert forall|kk: Seq<u8>| #[trigger] with_key(pair_views(out@), kk) == if (exists|q: int|
                            0 <= q < t + 1 && #[trigger] sv[q].0 == kk) && !has_key(bv, kk) && m.contains_key(kk) && m[kk] is Some {
                            seq![(kk, m[kk]->0)]
                        } else {
                            Seq::<PairView>::empty()
                        } by {
                            assert(before.push((k@, v@)).drop_last() =~= before);
                            if kk == k@ {
                                assert(!(exists|q: int| 0 <= q < t && #[trigger] sv[q].0 == kk)) by {
                                    if exists|q: int| 0 <= q < t && #[trigger] sv[q].0 == kk {
                                        let q = choose|q: int| 0 <= q < t && #[trigger] sv[q].0 == kk;
                                        assert(sv[q].0 != sv[t as int].0);
                                    }
                                }
                                assert(sv[t as int].0 == kk);
                                assert(with_key(before, kk) == Seq::<PairView>::empty());
                                assert(with_key(before.push((k@, v@)), kk) == with_key(before, kk).push((k@, v@)));
                                assert(Seq::<PairView>::empty().push((k@, v@)) =~= seq![(kk, m[kk]->0)]);
                            } else {
                                assert(with_key(before.push((k@, v@)), kk) == with_key(before, kk));
                                if exists|q: int| 0 <= q < t + 1 && #[trigger] sv[q].0 == kk {
                                    let q = choose|q: int| 0 <= q < t + 1 && #[trigger] sv[q].0 == kk;
                                    assert(q < t);
                                }
                            }
                        }
                    }
                } else {
                    proof {
                        assert(has_key(bv, k@));
                        assert forall|kk: Seq<u8>| #[trigger] with_key(pair_views(out@), kk) == if (exists|q: int|
                            0 <= q < t + 1 && #[trigger] sv[q].0 == kk) && !has_key(bv, kk) && m.contains_key(kk) && m[kk] is Some {
                            seq![(kk, m[kk]->0)]
                        } else {
                            Seq::<PairView>::empty()
                        } by {
                            assert(with_key(pair_views(out@), kk) == with_key(before, kk));
                            if kk != k@ {
                                if exists|q: int| 0 <= q < t + 1 && #[trigger] sv[q].0 == kk {
                                    let q = choose|q: int| 0 <= q < t + 1 && #[trigger] sv[q].0 == kk;
                                    assert(q < t);
                                }
                            }
                        }
                    }
                }
            },
            None => {
                proof {
                    assert forall|kk: Seq<u8>| #[trigger] with_key(pair_views(out@), kk) == if (exists|q: int|
                        0 <= q < t + 1 && #[trigger] sv[q].0 == kk) && !has_key(bv, kk) && m.contains_key(kk) && m[kk] is Some {
                        seq![(kk, m[kk]->0)]
                    } else {
                        Seq::<PairView>::empty()
                    } by {
                        if kk != k@ {
                            if exists|q: int| 0 <= q < t + 1 && #[trigger] sv[q].0 == kk {
                                let q = choose|q: int| 0 <= q < t + 1 && #[trigger] sv[q].0 == kk;
                                assert(q < t);
                            }
                        }
                    }
                }
            },
        }
        t = t + 1;
    }
    proof {
        assert forall|k: Seq<u8>| #[trigger] m.contains_key(k) implies (exists|q: int| 0 <= q < sv.len() && #[trigger] sv[q].0 == k) by {}
    }
    out
}


/// Sorts pairs by key, pairs of equal keys keeping their order.
fn sort_by_key(u: &Vec<(Vec<u8>, Vec<u8>)>) -> (r: Vec<(Vec<u8>, Vec<u8>)>)
    ensures
        sorted_by_key(pair_views(r@)),
        forall|k: Seq<u8>| #[trigger] with_key(pair_views(r@), k) == with_key(pair_views(u@), k),
{
    let ghost uv = pair_views(u@);
    let mut out: Vec<(Vec<u8>, Vec<u8>)> = Vec::new();
    let mut i: usize = 0;
    assert(uv.take(0) =~= Seq::<PairView>::empty());
    assert(pair_views(out@) =~= Seq::<PairView>::empty());
    while i < u.len()
        invariant
            uv == pair_views(u@),
            i <= u@.len(),
            sorted_by_key(pair_views(out@)),
            forall|k: Seq<u8>| #[trigger] with_key(pair_views(out@), k) == with_key(uv.take(i as int), k),
        decreases u@.len() - i,
    {
        let x = (crate::lsm::memtable::copy_bytes(&u[i].0), crate::lsm::memtable::copy_bytes(&u[i].1));
        assert(uv[i as int] == (x.0@, x.1@));
        let ghost ov = pair_views(out@);
        let mut p: usize = 0;
        while p < out.len() && !crate::keyorder::key_less(x.0.as_slice(), out[p].0.as_slice())
            invariant
                ov == pair_views(out@),
                p <= out@.len(),
                forall|j: int| 0 <= j < p ==> !lex_lt(x.0@, #[trigger] ov[j].0),
            decreases out@.len() - p,
        {
            assert(ov[p as int].0 == out@[p as int].0@);
            p = p + 1;
        }
        proof {
            if p < out@.len() {
                assert(ov[p as int].0 == out@[p as int].0@);
            }
            lemma_insert_sorted(ov, (x.0@, x.1@), p as int);
        }
        out.insert(p, x);
        proof {
            assert(pair_views(out@) =~= ov.insert(p as int, (x.0@, x.1@)));
            assert(uv.take(i + 1).drop_last() =~= uv.take(i as int));
            assert(uv.take(i + 1).last() == uv[i as int]);
        }
        i = i + 1;
    }
    assert(uv.take(i as int) =~= uv);
    out
}

/// The pairs a scan returns: reversed if asked, then cut to the limit.
fn finish_pairs(s: Vec<(Vec<u8>, Vec<u8>)>, reverse: bool, limit: Option<usize>) -> (r: Vec<(Vec<u8>, Vec<u8>)>)
    ensures
        pair_views(r@) == finish_scan(pair_views(s@), reverse, limit),
{
    let ghost sv = pair_views(s@);
    let mut v: Vec<(Vec<u8>, Vec<u8>)> = Vec::new();
    if reverse {
        let mut s = s;
        let n = s.len();
        while s.len() > 0
            invariant
                n == sv.len(),
                s@.len() <= n,
                pair_views(s@) == sv.take(s@.len() as int),
                pair_views(v@) == sv.reverse().take(n - s@.len()),
            decreases s@.len(),
        {
            let ghost before = pair_views(v@);
            let ghost len = s@.len();
            let x = s.pop().unwrap();
            v.push(x);
            proof {
                assert(pair_views(s@) =~= sv.take(len - 1)) by {
                    assert(pair_views(s@) =~= sv.take(len as int).drop_last());
                }
                assert(sv[len - 1] == (x.0@, x.1@)) by {
                    assert(sv.take(len as int)[len - 1] == sv[len - 1]);
                }
                assert(pair_views(v@) =~= sv.reverse().take(n - (len - 1))) by {
                    assert(pair_views(v@) =~= before.push((x.0@, x.1@)));
                    assert(sv.reverse()[n - len] == sv[len - 1]);
                }
            }
        }
        assert(sv.reverse().take(n as int) =~= sv.reverse());
    } else {
        v = s;
    }
    let ghost rv = pair_views(v@);
    match limit {
        Some(n) => {
            if n < v.len() {
                v.truncate(n);
                assert(pair_views(v@) =~= rv.take(n as int));
            }
        },
        None => {},
    }
    v
}


/// Scans `shard` over `range` inside the transaction `tx`, `base` being the pairs
/// the store's scan returned. Once the transaction has written to the shard, the
/// store's pairs are overlaid with its buffered writes to keys in the range (the
/// last write to a key wins: a deletion drops the key, a put sets its value or
/// adds it) and sorted by key, pairs of one key keeping the store's order; the
/// pairs are then reversed if the range asks for it and cut to its limit. Fails
/// with a write conflict once the transaction has ended.
pub fn transaction_scan(tx: &TransactionState, shard: u64, base: Vec<(Vec<u8>, Vec<u8>)>, range: &KeyRange) -> (r: Result<
    Vec<(Vec<u8>, Vec<u8>)>,
    KeyValueError,
>)
    ensures
        r is Ok <==> tx.state() == TransactionStatus::Active,
        r matches Err(e) ==> e is WriteConflict,
        r matches Ok(v) ==> exists|s: Seq<PairView>|
            #[trigger] finish_scan(s, range.reverse, range.limit) == pair_views(v@) && (if shard_touched(tx.writes(), shard) {
                is_buffered_merge(s, pair_views(base@), scan_buffer(tx.writes(), shard, *range))
            } else {
                s == pair_views(base@)
            }),
{
    match tx.check_active() {
        Ok(()) => {},
        Err(e) => return Err(e),
    }
    let ops = tx.buffered_writes();
    let (slots, touched) = collect_buffer(ops, shard, range);
    let ghost m = scan_buffer(tx.writes(), shard, *range);
    let ghost bv = pair_views(base@);
    let merged = if touched {
        let mut u = overlay_pairs(&base, &slots, Ghost(m));
        let ghost ov = pair_views(u@);
        let mut adds = added_pairs(&base, &slots, Ghost(m));
        let ghost av = pair_views(adds@);
        u.append(&mut adds);
        assert(pair_views(u@) =~= ov + av);
        let sorted = sort_by_key(&u);
        proof {
            lemma_overlay_keys(bv, m);
            assert forall|k: Seq<u8>| #[trigger] with_key(pair_views(sorted@), k) == if has_key(bv, k) {
                with_key(overlay(bv, m), k)
            } else if m.contains_key(k) && m[k] is Some {
                seq![(k, m[k]->0)]
            } else {
                Seq::<PairView>::empty()
            } by {
                lemma_with_key_concat(ov, av, k);
                if has_key(bv, k) {
                    assert(with_key(ov, k) + Seq::<PairView>::empty() =~= with_key(ov, k));
                } else {
                    assert forall|i: int| 0 <= i < ov.len() implies (#[trigger] ov[i]).0 != k by {
                        assert(has_key(bv, ov[i].0));
                    }
                    lemma_with_key_absent(ov, k);
                    assert(Seq::<PairView>::empty() + with_key(av, k) =~= with_key(av, k));
                }
            }
            assert(is_buffered_merge(pair_views(sorted@), bv, m));
        }
        sorted
    } else {
        base
    };
    let out = finish_pairs(merged, range.reverse, range.limit);
    Ok(out)
}

} // verus!
