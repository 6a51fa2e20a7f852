//! Snapshot-isolated transactions over the LSM tree: each transaction buffers
//! its writes, sees them before anything in the store, and hands them over in
//! order when it commits; a registry tracks the snapshots of the active
//! transactions, whose oldest is the garbage-collection watermark.
use vstd::prelude::*;
use crate::kvt::error::KeyValueError;
use crate::lsm::memtable::copy_bytes;

verus! {

/// A buffered write.
#[derive(Debug, Clone)]
pub enum WriteOp {
    Put { key: Vec<u8>, value: Vec<u8> },
    Delete { key: Vec<u8> },
}

/// Mathematical value of a [`WriteOp`].
pub enum WriteOpView {
    Put { key: Seq<u8>, value: Seq<u8> },
    Delete { key: Seq<u8> },
}

impl View for WriteOp {
    type V = WriteOpView;

    open spec fn view(&self) -> WriteOpView {
        match self {
            WriteOp::Put { key, value } => WriteOpView::Put { key: key@, value: value@ },
            WriteOp::Delete { key } => WriteOpView::Delete { key: key@ },
        }
    }
}

impl WriteOpView {
    /// The key written.
    pub open spec fn key(self) -> Seq<u8> {
        match self {
            WriteOpView::Put { key, .. } => key,
            WriteOpView::Delete { key } => key,
        }
    }
}

/// Where a transaction stands.
#[derive(Debug, Clone, Copy, PartialEq, Eq, Structural)]
pub enum TransactionStatus {
    Active,
    Committed,
    RolledBack,
}

/// The views of buffered writes, each with its shard.
pub open spec fn op_views(v: Seq<(u64, WriteOp)>) -> Seq<(u64, WriteOpView)> {
    v.map_values(|p: (u64, WriteOp)| (p.0, p.1@))
}

/// The transaction's own view of `key` in `shard` from its buffered writes:
/// the value of the last write to it (`None` for a deletion), or nothing when
/// it has not written the key.
pub open spec fn buffered_view(ops: Seq<(u64, WriteOpView)>, shard: u64, key: Seq<u8>) -> Option<Option<Seq<u8>>>
    decreases ops.len(),
{
    if ops.len() == 0 {
        None
    } else {
        let (s, op) = ops.last();
        if s == shard && op.key() == key {
            match op {
                WriteOpView::Put { value, .. } => Some(Some(value)),
                WriteOpView::Delete { .. } => Some(None),
            }
        } else {
            buffered_view(ops.drop_last(), shard, key)
        }
    }
}

/// The buffered state of one transaction.
pub struct TransactionState {
    id: u64,
    snapshot_ts: i64,
    ops: Vec<(u64, WriteOp)>,
    status: TransactionStatus,
}

impl TransactionState {
    /// The transaction's identifier.
    pub closed spec fn tx_id(&self) -> u64 {
        self.id
    }

    /// The timestamp of the snapshot it reads.
    pub closed spec fn snapshot(&self) -> i64 {
        self.snapshot_ts
    }

    /// Its buffered writes in the order made, each with its shard.
    pub closed spec fn writes(&self) -> Seq<(u64, WriteOpView)> {
        op_views(self.ops@)
    }

    /// Where it stands.
    pub closed spec fn state(&self) -> TransactionStatus {
        self.status
    }

    /// An active transaction `id` reading the snapshot at `snapshot_ts`, with
    /// no writes.
    pub fn new(id: u64, snapshot_ts: i64) -> (r: Self)
        ensures
            r.tx_id() == id,
            r.snapshot() == snapshot_ts,
            r.writes().len() == 0,
            r.state() == TransactionStatus::Active,
    {
        let r = TransactionState { id, snapshot_ts, ops: Vec::new(), status: TransactionStatus::Active };
        assert(op_views(r.ops@) =~= Seq::<(u64, WriteOpView)>::empty());
        r
    }

    /// The transaction's identifier.
    pub fn id(&self) -> (r: u64)
        ensures
            r == self.tx_id(),
    {
        self.id
    }

    /// The timestamp of the snapshot it reads.
    pub fn snapshot_ts(&self) -> (r: i64)
        ensures
            r == self.snapshot(),
    {
        self.snapshot_ts
    }

    /// Its buffered writes in the order made, each with its shard.
    pub fn buffered_writes(&self) -> (r: &Vec<(u64, WriteOp)>)
        ensures
            op_views(r@) == self.writes(),
    {
        &self.ops
    }

    /// Succeeds while the transaction is active; once committed or rolled back
    /// every operation fails with a write conflict.
    pub fn check_active(&self) -> (r: Result<(), KeyValueError>)
        ensures
            r is Ok <==> self.state() == TransactionStatus::Active,
            r matches Err(e) ==> e is WriteConflict,
    {
        match self.status {
            TransactionStatus::Active => Ok(()),
            _ => Err(KeyValueError::WriteConflict),
        }
    }

    /// The transaction's own view of `key` in `shard`: the value of its last
    /// write to the key (`Some(None)` for a deletion), or `None` when the
    /// store must be read at the snapshot.
    pub fn get_from_buffer(&self, shard: u64, key: &[u8]) -> (r: Option<Option<Vec<u8>>>)
        ensures
            match (r, buffered_view(self.writes(), shard, key@)) {
                (None, None) => true,
                (Some(None), Some(None)) => true,
                (Some(Some(v)), Some(Some(w))) => v@ == w,
                _ => false,
            },
    {
        let ghost w = op_views(self.ops@);
        let mut i: usize = self.ops.len();
        assert(w.subrange(0, i as int) =~= w);
        while i > 0
            invariant
                i <= self.ops@.len(),
                w == op_views(self.ops@),
                buffered_view(w, shard, key@) == buffered_view(w.subrange(0, i as int), shard, key@),
            decreases i,
        {
            let (s, op) = &self.ops[i - 1];
            proof {
                assert(w.subrange(0, i as int).drop_last() =~= w.subrange(0, i - 1));
                assert(w.subrange(0, i as int).last() == w[i - 1]);
            }
            if *s == shard {
                match op {
                    WriteOp::Put { key: k, value } => {
                        if crate::keyorder::key_eq(k.as_slice(), key) {
                            return Some(Some(copy_bytes(value)));
                        }
                    },
                    WriteOp::Delete { key: k } => {
                        if crate::keyorder::key_eq(k.as_slice(), key) {
                            return Some(None);
                        }
                    },
                }
            }
            i = i - 1;
        }
        None
    }

    /// Buffers a write of `value` to `key` in `shard`.
    pub fn put(&mut self, shard: u64, key: &[u8], value: &[u8]) -> (r: Result<(), KeyValueError>)
        ensures
            r is Ok <==> old(self).state() == TransactionStatus::Active,
            r matches Err(e) ==> e is WriteConflict,
            final(self).writes() == (if r is Ok {
                old(self).writes().push((shard, WriteOpView::Put { key: key@, value: value@ }))
            } else {
                old(self).writes()
            }),
            final(self).state() == old(self).state(),
            final(self).tx_id() == old(self).tx_id(),
            final(self).snapshot() == old(self).snapshot(),
    {
        self.check_active()?;
        let op = WriteOp::Put { key: vstd::slice::slice_to_vec(key), value: vstd::slice::slice_to_vec(value) };
        self.ops.push((shard, op));
        assert(op_views(self.ops@) =~= op_views(old(self).ops@).push((shard, WriteOpView::Put { key: key@, value: value@ })));
        Ok(())
    }

    /// Deletes `key` in `shard` given whether the transaction currently sees it
    /// (in its own writes or in the store at its snapshot): a deletion is
    /// buffered only for a key that exists. Returns whether it existed.
    pub fn delete(&mut self, shard: u64, key: &[u8], exists: bool) -> (r: Result<bool, KeyValueError>)
        ensures
            r is Ok <==> old(self).state() == TransactionStatus::Active,
            r matches Err(e) ==> e is WriteConflict,
            r matches Ok(b) ==> b == exists,
            final(self).writes() == (if r is Ok && exists {
                old(self).writes().push((shard, WriteOpView::Delete { key: key@ }))
            } else {
                old(self).writes()
            }),
            final(self).state() == old(self).state(),
            final(self).tx_id() == old(self).tx_id(),
            final(self).snapshot() == old(self).snapshot(),
    {
        self.check_active()?;
        if exists {
            self.ops.push((shard, WriteOp::Delete { key: vstd::slice::slice_to_vec(key) }));
            assert(op_views(self.ops@) =~= op_views(old(self).ops@).push((shard, WriteOpView::Delete { key: key@ })));
        }
        Ok(exists)
    }

    /// Marks the transaction committed and hands over its writes, in the
    /// order made, to be applied at the commit timestamp.
    pub fn commit(&mut self) -> (r: Result<Vec<(u64, WriteOp)>, KeyValueError>)
        ensures
            r is Ok <==> old(self).state() == TransactionStatus::Active,
            r matches Err(e) ==> e is WriteConflict,
            r matches Ok(ops) ==> op_views(ops@) == old(self).writes() && final(self).state()
                == TransactionStatus::Committed,
            r is Err ==> final(self).state() == old(self).state(),
            final(self).writes() == old(self).writes(),
            final(self).tx_id() == old(self).tx_id(),
            final(self).snapshot() == old(self).snapshot(),
    {
        self.check_active()?;
        self.status = TransactionStatus::Committed;
        let mut out: Vec<(u64, WriteOp)> = Vec::new();
        let mut i: usize = 0;
        while i < self.ops.len()
            invariant
                i <= self.ops@.len(),
                op_views(out@) == op_views(self.ops@).subrange(0, i as int),
            decreases self.ops@.len() - i,
        {
            let (s, op) = &self.ops[i];
            let copy = match op {
                WriteOp::Put { key, value } => WriteOp::Put { key: copy_bytes(key), value: copy_bytes(value) },
                WriteOp::Delete { key } => WriteOp::Delete { key: copy_bytes(key) },
            };
            assert(copy@ == op@);
            let ghost before = out@;
            out.push((*s, copy));
            proof {
                assert(op_views(out@) =~= op_views(before).push((*s, op@)));
                assert(op_views(self.ops@)[i as int] == (*s, op@));
            }
            i = i + 1;
            assert(op_views(out@) =~= op_views(self.ops@).subrange(0, i as int));
        }
        assert(op_views(self.ops@).subrange(0, i as int) =~= op_views(self.ops@));
        Ok(out)
    }

    /// Marks the transaction rolled back and discards its writes.
    pub fn rollback(&mut self) -> (r: Result<(), KeyValueError>)
        ensures
            r is Ok <==> old(self).state() == TransactionStatus::Active,
            r matches Err(e) ==> e is WriteConflict,
            r is Ok ==> final(self).state() == TransactionStatus::RolledBack && final(self).writes().len() == 0,
            r is Err ==> final(self).state() == old(self).state() && final(self).writes() == old(self).writes(),
            final(self).tx_id() == old(self).tx_id(),
            final(self).snapshot() == old(self).snapshot(),
    {
        self.check_active()?;
        self.status = TransactionStatus::RolledBack;
        self.ops.clear();
        assert(op_views(self.ops@) =~= Seq::<(u64, WriteOpView)>::empty());
        Ok(())
    }
}

/// A transaction reads its own writes: after buffering a write of `value` to
/// `key` in `shard`, its view of that key is `value`.
pub proof fn lemma_read_own_write(ops: Seq<(u64, WriteOpView)>, shard: u64, key: Seq<u8>, value: Seq<u8>)
    ensures
        buffered_view(ops.push((shard, WriteOpView::Put { key, value })), shard, key) == Some(Some(value)),
{
    assert(ops.push((shard, WriteOpView::Put { key, value })).drop_last() =~= ops);
}

/// After buffering a deletion of `key` in `shard`, the transaction sees the
/// key as absent.
pub proof fn lemma_read_own_delete(ops: Seq<(u64, WriteOpView)>, shard: u64, key: Seq<u8>)
    ensures
        buffered_view(ops.push((shard, WriteOpView::Delete { key })), shard, key) == Some(None::<Seq<u8>>),
{
    assert(ops.push((shard, WriteOpView::Delete { key })).drop_last() =~= ops);
}

/// A buffered write leaves the transaction's view of every other key, and of
/// the same key in other shards, unchanged.
pub proof fn lemma_write_leaves_others(ops: Seq<(u64, WriteOpView)>, op: (u64, WriteOpView), shard: u64, key: Seq<u8>)
    requires
        op.0 != shard || op.1.key() != key,
    ensures
        buffered_view(ops.push(op), shard, key) == buffered_view(ops, shard, key),
{
    assert(ops.push(op).drop_last() =~= ops);
}

/// The smallest of the snapshot timestamps, if any.
pub open spec fn min_snapshot(s: Seq<(u64, i64)>) -> Option<i64>
    decreases s.len(),
{
    if s.len() == 0 {
        None
    } else {
        match min_snapshot(s.drop_last()) {
            Some(m) => Some(if s.last().1 < m { s.last().1 } else { m }),
            None => Some(s.last().1),
        }
    }
}

/// No transaction identifier occurs twice.
pub open spec fn ids_distinct(s: Seq<(u64, i64)>) -> bool {
    forall|i: int, j: int| 0 <= i < s.len() && 0 <= j < s.len() && i != j ==> #[trigger] s[i].0 != #[trigger] s[j].0
}

/// The active transactions' snapshots, and the identifiers handed out.
pub struct TransactionRegistry {
    next_tx_id: u64,
    active: Vec<(u64, i64)>,
}

impl TransactionRegistry {
    /// The identifier the next transaction receives.
    pub closed spec fn next_id(&self) -> u64 {
        self.next_tx_id
    }

    /// The active transactions with their snapshot timestamps, oldest first.
    pub closed spec fn snapshots(&self) -> Seq<(u64, i64)> {
        self.active@
    }

    #[verifier::type_invariant]
    spec fn registry_wf(&self) -> bool {
        &&& ids_distinct(self.active@)
        &&& forall|i: int| 0 <= i < self.active@.len() ==> #[trigger] self.active@[i].0 < self.next_tx_id
    }

    /// A registry with no active transaction, handing out identifiers from 1.
    pub fn new() -> (r: Self)
        ensures
            r.next_id() == 1,
            r.snapshots().len() == 0,
    {
        TransactionRegistry { next_tx_id: 1, active: Vec::new() }
    }

    /// Starts a transaction reading the snapshot at `snapshot_ts`: it gets the
    /// next identifier and joins the active ones.
    pub fn begin(&mut self, snapshot_ts: i64) -> (r: u64)
        requires
            old(self).next_id() < u64::MAX,
        ensures
            r == old(self).next_id(),
            final(self).next_id() == r + 1,
            final(self).snapshots() == old(self).snapshots().push((r, snapshot_ts)),
    {
        proof { use_type_invariant(&*self); }
        let id = self.next_tx_id;
        let mut active: Vec<(u64, i64)> = Vec::new();
        std::mem::swap(&mut active, &mut self.active);
        active.push((id, snapshot_ts));
        *self = TransactionRegistry { next_tx_id: id + 1, active };
        id
    }

    /// The oldest snapshot among the active transactions, below which versions
    /// can be collected; `None` when none is active.
    pub fn min_active_snapshot_seq(&self) -> (r: Option<i64>)
        ensures
            r == min_snapshot(self.snapshots()),
    {
        let mut best: Option<i64> = None;
        let mut i: usize = 0;
        while i < self.active.len()
            invariant
                i <= self.active@.len(),
                best == min_snapshot(self.active@.subrange(0, i as int)),
            decreases self.active@.len() - i,
        {
            let ts = self.active[i].1;
            proof {
                assert(self.active@.subrange(0, i + 1).drop_last() =~= self.active@.subrange(0, i as int));
            }
            best = match best {
                Some(m) => Some(if ts < m { ts } else { m }),
                None => Some(ts),
            };
            i = i + 1;
        }
        assert(self.active@.subrange(0, i as int) =~= self.active@);
        best
    }

    /// Number of active transactions.
    pub fn active_transaction_count(&self) -> (r: usize)
        ensures
            r == self.snapshots().len(),
    {
        self.active.len()
    }

    /// Removes transaction `tx_id` from the active ones, if it is there.
    pub fn remove_transaction(&mut self, tx_id: u64)
        ensures
            final(self).next_id() == old(self).next_id(),
            final(self).snapshots() == old(self).snapshots().filter(|p: (u64, i64)| p.0 != tx_id),
    {
        proof { use_type_invariant(&*self); }
        let next = self.next_tx_id;
        let mut active: Vec<(u64, i64)> = Vec::new();
        std::mem::swap(&mut active, &mut self.active);
        let ghost s = active@;
        let mut kept: Vec<(u64, i64)> = Vec::new();
        let mut i: usize = 0;
        while i < active.len()
            invariant
                i <= active@.len(),
                s == active@,
                ids_distinct(s),
                forall|k: int| 0 <= k < s.len() ==> #[trigger] s[k].0 < next,
                kept@ == s.subrange(0, i as int).filter(|p: (u64, i64)| p.0 != tx_id),
                ids_distinct(kept@),
                forall|k: int| 0 <= k < kept@.len() ==> #[trigger] kept@[k].0 < next,
                forall|k: int| #![trigger kept@[k]] 0 <= k < kept@.len() ==> exists|m: int| 0 <= m < i && #[trigger] s[m] == kept@[k],
            decreases active@.len() - i,
        {
            let p = active[i];
            proof {
                assert(s.subrange(0, i + 1).drop_last() =~= s.subrange(0, i as int));
                reveal(Seq::filter);
            }
            if p.0 != tx_id {
                proof {
                    assert forall|k: int| 0 <= k < kept@.len() implies #[trigger] kept@[k].0 != p.0 by {
                        let m = choose|m: int| 0 <= m < i && #[trigger] s[m] == kept@[k];
                        assert(s[m].0 != s[i as int].0);
                    }
                }
                kept.push(p);
                proof {
                    assert forall|k: int| #![trigger kept@[k]] 0 <= k < kept@.len() implies exists|m: int| 0 <= m < i + 1 && #[trigger] s[m] == kept@[k] by {
                        if k == kept@.len() - 1 {
                            assert(s[i as int] == kept@[k]);
                        } else {
                            let m = choose|m: int| 0 <= m < i && #[trigger] s[m] == kept@[k];
                            assert(s[m] == kept@[k]);
                        }
                    }
                }
            }
            i = i + 1;
        }
        assert(s.subrange(0, i as int) =~= s);
        *self = TransactionRegistry { next_tx_id: next, active: kept };
    }
}

/// The watermark is the snapshot of an active transaction, and no active
/// transaction reads an older snapshot.
pub proof fn lemma_watermark_is_minimum(s: Seq<(u64, i64)>)
    ensures
        s.len() == 0 <==> min_snapshot(s) is None,
        min_snapshot(s) matches Some(m) ==> (exists|i: int| 0 <= i < s.len() && s[i].1 == m) && forall|i: int|
            0 <= i < s.len() ==> m <= #[trigger] s[i].1,
    decreases s.len(),
{
    if s.len() > 0 {
        lemma_watermark_is_minimum(s.drop_last());
        let m = min_snapshot(s).unwrap();
        match min_snapshot(s.drop_last()) {
            Some(m0) => {
                let j = choose|j: int| 0 <= j < s.drop_last().len() && s.drop_last()[j].1 == m0;
                if s.last().1 < m0 {
                    assert(s[s.len() - 1].1 == m);
                } else {
                    assert(s[j].1 == m);
                }
                assert forall|i: int| 0 <= i < s.len() implies m <= #[trigger] s[i].1 by {
                    if i < s.len() - 1 {
                        assert(s.drop_last()[i] == s[i]);
                    }
                }
            },
            None => {
                assert(s[s.len() - 1].1 == m);
            },
        }
    }
}

} // verus!
