//! Block cache: keeps decoded data blocks, evicting by recency and frequency.
use vstd::prelude::*;
use std::sync::Arc;
use crate::lsm::memtable::{entry_views, lemma_total_size_concat, lemma_total_size_nonneg, total_size};
use crate::lsm::sstable::DataBlock;

verus! {

/// Identifies a block: the SSTable file and the block's offset in it.
#[derive(Debug, Clone, Copy, PartialEq, Eq, Hash, Structural)]
pub struct BlockKey {
    pub file_number: u64,
    pub block_offset: u64,
}

impl BlockKey {
    /// Creates a block key.
    pub fn new(file_number: u64, block_offset: u64) -> (r: Self)
        ensures
            r == (BlockKey { file_number, block_offset }),
    {
        BlockKey { file_number, block_offset }
    }
}

/// Hands out another reference to a shared block.
///
/// Calls `Arc::clone`; the contract claims the result refers to the same block.
#[verifier::external_body]
fn share_block(b: &Arc<DataBlock>) -> (r: Arc<DataBlock>)
    ensures
        r == *b,
{
    Arc::clone(b)
}

/// A cached block with its size and access statistics.
struct CacheSlot {
    key: BlockKey,
    size: usize,
    access_count: u64,
    last_access: u64,
    block: Arc<DataBlock>,
}

/// What eviction looks at in a cached block.
pub struct SlotView {
    pub key: BlockKey,
    pub size: nat,
    pub access_count: nat,
    pub last_access: nat,
    pub block: Arc<DataBlock>,
}

impl CacheSlot {
    spec fn view(&self) -> SlotView {
        SlotView {
            key: self.key,
            size: self.size as nat,
            access_count: self.access_count as nat,
            last_access: self.last_access as nat,
            block: self.block,
        }
    }
}

/// The estimated memory size of a block: its entries, 4 bytes per restart point, and 64.
pub open spec fn block_cost(b: DataBlock) -> int {
    total_size(entry_views(b.entries@)) + b.restart_points@.len() * 4 + 64
}

/// The most recent access among the slots.
pub open spec fn latest_access(s: Seq<SlotView>) -> nat
    decreases s.len(),
{
    if s.len() == 0 {
        0
    } else {
        let m = latest_access(s.drop_last());
        if s.last().last_access > m { s.last().last_access } else { m }
    }
}

/// Slot `i` scores strictly lower than slot `j`: its access count divided by one plus
/// its age (time since last access) is smaller.
pub open spec fn scores_lower(s: Seq<SlotView>, i: int, j: int) -> bool {
    let now = latest_access(s);
    s[i].access_count * (1 + now - s[j].last_access) < s[j].access_count * (1 + now - s[i].last_access)
}

/// Scanning the first `k` slots in order, the index of the slot whose score is lower
/// than that of every earlier candidate: the first slot with the lowest score.
pub open spec fn victim_upto(s: Seq<SlotView>, k: int) -> int
    decreases k,
{
    if k <= 1 {
        0
    } else {
        let b = victim_upto(s, k - 1);
        if scores_lower(s, k - 1, b) { k - 1 } else { b }
    }
}

/// The slot that eviction removes.
pub open spec fn victim(s: Seq<SlotView>) -> int {
    victim_upto(s, s.len() as int)
}

pub proof fn lemma_victim_upto_range(s: Seq<SlotView>, k: int)
    requires
        1 <= k,
    ensures
        0 <= victim_upto(s, k) < k,
    decreases k,
{
    if k > 1 {
        lemma_victim_upto_range(s, k - 1);
    }
}

/// Total size of the slots.
pub open spec fn slots_size(s: Seq<SlotView>) -> int
    decreases s.len(),
{
    if s.len() == 0 {
        0
    } else {
        slots_size(s.drop_last()) + s.last().size
    }
}

/// Slot views with their keys.
pub open spec fn slot_keys(s: Seq<SlotView>) -> Seq<BlockKey> {
    s.map_values(|x: SlotView| x.key)
}

/// The slots left, and how many were evicted, once room is made for `incoming` bytes
/// within `capacity`: victims are removed one at a time while the slots plus the
/// incoming block exceed the capacity.
pub open spec fn after_evictions(s: Seq<SlotView>, incoming: int, capacity: int) -> (Seq<SlotView>, nat)
    decreases s.len(),
{
    if s.len() > 0 && slots_size(s) + incoming > capacity {
        let v = victim(s);
        proof {
            lemma_victim_upto_range(s, s.len() as int);
        }
        let (rest, n) = after_evictions(s.remove(v), incoming, capacity);
        (rest, n + 1)
    } else {
        (s, 0)
    }
}

/// A statistics counter after `n` more events (machine counters wrap around).
pub open spec fn wrap_add(c: u64, n: nat) -> u64 {
    ((c + n) % 0x1_0000_0000_0000_0000) as u64
}

/// The slot of `key`, if any.
pub open spec fn slot_index(s: Seq<SlotView>, key: BlockKey) -> Option<int> {
    if exists|i: int| 0 <= i < s.len() && #[trigger] s[i].key == key {
        Some(choose|i: int| 0 <= i < s.len() && #[trigger] s[i].key == key)
    } else {
        None
    }
}

/// The slots without that of `key`.
pub open spec fn without_key(s: Seq<SlotView>, key: BlockKey) -> Seq<SlotView> {
    match slot_index(s, key) {
        Some(i) => s.remove(i),
        None => s,
    }
}

/// No two slots hold the same key.
pub open spec fn keys_unique(s: Seq<SlotView>) -> bool {
    forall|i: int, j: int| 0 <= i < s.len() && 0 <= j < s.len() && i != j ==> #[trigger] s[i].key != #[trigger] s[j].key
}

pub proof fn lemma_slots_size_concat(a: Seq<SlotView>, b: Seq<SlotView>)
    ensures
        slots_size(a + b) == slots_size(a) + slots_size(b),
    decreases b.len(),
{
    if b.len() == 0 {
        assert(a + b =~= a);
    } else {
        lemma_slots_size_concat(a, b.drop_last());
        assert((a + b).drop_last() =~= a + b.drop_last());
    }
}

pub proof fn lemma_slots_size_nonneg(s: Seq<SlotView>)
    ensures
        slots_size(s) >= 0,
    decreases s.len(),
{
    if s.len() > 0 {
        lemma_slots_size_nonneg(s.drop_last());
    }
}

pub proof fn lemma_slots_size_single(x: SlotView)
    ensures
        slots_size(seq![x]) == x.size,
{
    assert(seq![x].drop_last() =~= Seq::<SlotView>::empty());
    assert(slots_size(seq![x].drop_last()) == 0);
}

/// Removing a slot takes its size off the total.
pub proof fn lemma_slots_size_remove(s: Seq<SlotView>, i: int)
    requires
        0 <= i < s.len(),
    ensures
        slots_size(s.remove(i)) == slots_size(s) - s[i].size,
        slots_size(s) >= s[i].size,
{
    let pre = s.subrange(0, i);
    let post = s.subrange(i + 1, s.len() as int);
    assert(s =~= pre + seq![s[i]] + post);
    assert(s.remove(i) =~= pre + post);
    lemma_slots_size_concat(pre + seq![s[i]], post);
    lemma_slots_size_concat(pre, seq![s[i]]);
    lemma_slots_size_concat(pre, post);
    lemma_slots_size_single(s[i]);
    lemma_slots_size_nonneg(pre);
    lemma_slots_size_nonneg(post);
}

/// Replacing a slot by one of the same size keeps the total.
pub proof fn lemma_slots_size_update(s: Seq<SlotView>, i: int, x: SlotView)
    requires
        0 <= i < s.len(),
        x.size == s[i].size,
    ensures
        slots_size(s.update(i, x)) == slots_size(s),
{
    lemma_slots_size_remove(s, i);
    lemma_slots_size_remove(s.update(i, x), i);
    assert(s.update(i, x).remove(i) =~= s.remove(i));
}

/// LRU block cache with frequency-aware eviction.
pub struct BlockCache {
    slots: Vec<CacheSlot>,
    current_size: usize,
    access_counter: u64,
    capacity: usize,
    hits: u64,
    misses: u64,
    evictions: u64,
}

/// Once `key`'s slot is taken out, no slot holds `key`.
pub proof fn lemma_without_key(s: Seq<SlotView>, key: BlockKey)
    requires
        keys_unique(s),
    ensures
        forall|i: int| 0 <= i < without_key(s, key).len() ==> (#[trigger] without_key(s, key)[i]).key != key,
        keys_unique(without_key(s, key)),
{
    let w = without_key(s, key);
    match slot_index(s, key) {
        Some(i0) => {
            assert forall|i: int| 0 <= i < w.len() implies (#[trigger] w[i]).key != key by {
                let j = if i < i0 { i } else { i + 1 };
                assert(w[i] == s[j]);
                assert(s[i0].key == key);
            }
            assert forall|a: int, b: int| 0 <= a < w.len() && 0 <= b < w.len() && a != b implies #[trigger] w[a].key != #[trigger] w[b].key by {
                let a0 = if a < i0 { a } else { a + 1 };
                let b0 = if b < i0 { b } else { b + 1 };
                assert(w[a] == s[a0] && w[b] == s[b0]);
            }
        },
        None => {},
    }
}

pub proof fn lemma_latest_access(s: Seq<SlotView>)
    ensures
        forall|i: int| 0 <= i < s.len() ==> #[trigger] s[i].last_access <= latest_access(s),
        s.len() > 0 ==> exists|i: int| 0 <= i < s.len() && #[trigger] s[i].last_access == latest_access(s),
    decreases s.len(),
{
    if s.len() > 0 {
        lemma_latest_access(s.drop_last());
        assert forall|i: int| 0 <= i < s.len() implies #[trigger] s[i].last_access <= latest_access(s) by {
            if i < s.len() - 1 {
                assert(s[i] == s.drop_last()[i]);
            }
        }
        let m = latest_access(s.drop_last());
        if s.last().last_access > m {
            assert(s[s.len() - 1].last_access == latest_access(s));
        } else if s.len() == 1 {
            assert(s.drop_last().len() == 0);
            assert(m == 0);
            assert(s[0].last_access == latest_access(s));
        } else {
            let i = choose|i: int| 0 <= i < s.drop_last().len() && #[trigger] s.drop_last()[i].last_access == m;
            assert(s[i] == s.drop_last()[i]);
        }
    }
}

impl View for BlockCache {
    type V = Seq<SlotView>;

    /// The cached blocks, oldest insertion first.
    closed spec fn view(&self) -> Seq<SlotView> {
        self.slots@.map_values(|c: CacheSlot| c.view())
    }
}

impl BlockCache {
    /// Capacity in bytes.
    pub closed spec fn cap(&self) -> nat {
        self.capacity as nat
    }

    /// Bytes currently cached.
    pub closed spec fn used(&self) -> nat {
        self.current_size as nat
    }

    /// Access clock: one tick per hit and per insertion.
    pub closed spec fn clock(&self) -> u64 {
        self.access_counter
    }

    pub closed spec fn hit_count(&self) -> u64 {
        self.hits
    }

    pub closed spec fn miss_count(&self) -> u64 {
        self.misses
    }

    pub closed spec fn eviction_count(&self) -> u64 {
        self.evictions
    }

    /// Keys are unique, the used size is the sum of the block sizes and within the
    /// capacity, and no statistic of a block is ahead of the clock.
    pub closed spec fn wf(&self) -> bool {
        &&& keys_unique(self@)
        &&& self.current_size as int == slots_size(self@)
        &&& self.current_size <= self.capacity
        &&& forall|i: int| 0 <= i < self@.len() ==> (#[trigger] self@[i]).access_count <= self.access_counter
        &&& forall|i: int| 0 <= i < self@.len() ==> (#[trigger] self@[i]).last_access <= self.access_counter
    }

    /// The used size never exceeds the capacity.
    pub proof fn lemma_within_capacity(&self)
        requires
            self.wf(),
        ensures
            self.used() <= self.cap(),
            self.used() == slots_size(self@),
            keys_unique(self@),
    {
    }

    /// Creates an empty cache holding at most `capacity` bytes.
    pub fn new(capacity: usize) -> (r: Self)
        ensures
            r.wf(),
            r@ == Seq::<SlotView>::empty(),
            r.cap() == capacity,
            r.used() == 0,
            r.clock() == 0,
            r.hit_count() == 0,
            r.miss_count() == 0,
            r.eviction_count() == 0,
    {
        let r = BlockCache {
            slots: Vec::new(),
            current_size: 0,
            access_counter: 0,
            capacity,
            hits: 0,
            misses: 0,
            evictions: 0,
        };
        assert(r@ =~= Seq::<SlotView>::empty());
        r
    }

    /// Position of `key`'s slot.
    fn find(&self, key: &BlockKey) -> (r: Option<usize>)
        requires
            self.wf(),
        ensures
            match r {
                Some(i) => slot_index(self@, *key) == Some(i as int) && i < self@.len(),
                None => slot_index(self@, *key) is None,
            },
    {
        let mut i: usize = 0;
        while i < self.slots.len()
            invariant
                self.wf(),
                i <= self.slots@.len(),
                self@.len() == self.slots@.len(),
                forall|j: int| 0 <= j < i ==> (#[trigger] self@[j]).key != *key,
            decreases self.slots@.len() - i,
        {
            assert(self@[i as int].key == self.slots@[i as int].key);
            if self.slots[i].key == *key {
                proof {
                    assert(exists|j: int| 0 <= j < self@.len() && #[trigger] self@[j].key == *key) by {
                        assert(self@[i as int].key == *key);
                    }
                    let c = choose|j: int| 0 <= j < self@.len() && #[trigger] self@[j].key == *key;
                    if c != i {
                        assert(self@[c].key == self@[i as int].key);
                    }
                }
                return Some(i);
            }
            i = i + 1;
        }
        None
    }

    /// The cached block for `key`, counting a hit (and refreshing the block's
    /// statistics) or a miss.
    pub fn get(&mut self, key: &BlockKey) -> (r: Option<Arc<DataBlock>>)
        requires
            old(self).wf(),
            old(self).clock() < u64::MAX,
        ensures
            final(self).wf(),
            final(self).cap() == old(self).cap(),
            final(self).used() == old(self).used(),
            final(self).eviction_count() == old(self).eviction_count(),
            match slot_index(old(self)@, *key) {
                Some(i) => {
                    &&& r == Some(old(self)@[i].block)
                    &&& final(self).clock() == old(self).clock() + 1
                    &&& final(self).hit_count() == wrap_add(old(self).hit_count(), 1)
                    &&& final(self).miss_count() == old(self).miss_count()
                    &&& final(self)@ == old(self)@.update(
                        i,
                        SlotView {
                            access_count: old(self)@[i].access_count + 1,
                            last_access: (old(self).clock() + 1) as nat,
                            ..old(self)@[i]
                        },
                    )
                },
                None => {
                    &&& r is None
                    &&& final(self).clock() == old(self).clock()
                    &&& final(self).hit_count() == old(self).hit_count()
                    &&& final(self).miss_count() == wrap_add(old(self).miss_count(), 1)
                    &&& final(self)@ == old(self)@
                },
            },
    {
        match self.find(key) {
            Some(i) => {
                let ghost s = self@;
                let block = share_block(&self.slots[i].block);
                self.access_counter = self.access_counter + 1;
                let now = self.access_counter;
                let old_slot = &self.slots[i];
                assert(s[i as int] == old_slot.view());
                let slot = CacheSlot {
                    key: old_slot.key,
                    size: old_slot.size,
                    access_count: old_slot.access_count + 1,
                    last_access: now,
                    block: share_block(&old_slot.block),
                };
                self.slots.set(i, slot);
                self.hits = self.hits.wrapping_add(1);
                assert(self@ =~= s.update(i as int, slot.view()));
                proof {
                    lemma_slots_size_update(s, i as int, slot.view());
                    assert forall|a: int, b: int| 0 <= a < self@.len() && 0 <= b < self@.len() && a != b implies #[trigger] self@[a].key != #[trigger] self@[b].key by {
                        assert(self@[a].key == s[a].key);
                        assert(self@[b].key == s[b].key);
                    }
                }
                Some(block)
            },
            None => {
                self.misses = self.misses.wrapping_add(1);
                None
            },
        }
    }

    /// Removes the slot at `i`.
    fn remove_at(&mut self, i: usize)
        requires
            old(self).wf(),
            i < old(self)@.len(),
        ensures
            final(self).wf(),
            final(self)@ == old(self)@.remove(i as int),
            final(self).cap() == old(self).cap(),
            final(self).clock() == old(self).clock(),
            final(self).hit_count() == old(self).hit_count(),
            final(self).miss_count() == old(self).miss_count(),
            final(self).eviction_count() == old(self).eviction_count(),
    {
        let ghost s = self@;
        let slot = self.slots.remove(i);
        assert(slot.view() == s[i as int]);
        proof {
            lemma_slots_size_remove(s, i as int);
        }
        self.current_size = self.current_size - slot.size;
        assert(self@ =~= s.remove(i as int));
        proof {
            assert forall|a: int, b: int| 0 <= a < self@.len() && 0 <= b < self@.len() && a != b implies #[trigger] self@[a].key != #[trigger] self@[b].key by {
                let a0 = if a < i { a } else { a + 1 };
                let b0 = if b < i { b } else { b + 1 };
                assert(self@[a] == s[a0]);
                assert(self@[b] == s[b0]);
            }
            assert forall|a: int| 0 <= a < self@.len() implies (#[trigger] self@[a]).access_count <= self.access_counter && self@[a].last_access <= self.access_counter by {
                let a0 = if a < i { a } else { a + 1 };
                assert(self@[a] == s[a0]);
            }
        }
    }

    /// Removes the block of `key`, if cached.
    pub fn remove(&mut self, key: &BlockKey)
        requires
            old(self).wf(),
        ensures
            final(self).wf(),
            final(self)@ == without_key(old(self)@, *key),
            final(self).cap() == old(self).cap(),
            final(self).clock() == old(self).clock(),
            final(self).hit_count() == old(self).hit_count(),
            final(self).miss_count() == old(self).miss_count(),
            final(self).eviction_count() == old(self).eviction_count(),
    {
        match self.find(key) {
            Some(i) => {
                self.remove_at(i);
            },
            None => {},
        }
    }

    /// The slot that eviction picks: the first with the lowest score.
    fn select_victim(&self) -> (r: usize)
        requires
            self.wf(),
            self@.len() > 0,
        ensures
            r == victim(self@),
    {
        let ghost s = self@;
        let n = self.slots.len();
        let mut now: u64 = 0;
        let mut i: usize = 0;
        while i < n
            invariant
                s == self@,
                n == s.len(),
                i <= n,
                now == latest_access(s.subrange(0, i as int)),
            decreases n - i,
        {
            assert(s.subrange(0, i + 1).drop_last() =~= s.subrange(0, i as int));
            assert(s[i as int].last_access == self.slots@[i as int].last_access);
            if self.slots[i].last_access > now {
                now = self.slots[i].last_access;
            }
            i = i + 1;
        }
        assert(s.subrange(0, n as int) =~= s);
        proof {
            lemma_latest_access(s);
        }
        let mut best: usize = 0;
        let mut j: usize = 1;
        while j < n
            invariant
                s == self@,
                n == s.len(),
                1 <= j <= n,
                now == latest_access(s),
                forall|t: int| 0 <= t < n ==> (#[trigger] s[t]).last_access <= now,
                best == victim_upto(s, j as int),
                best < j,
            decreases n - j,
        {
            assert(s[j as int].last_access == self.slots@[j as int].last_access);
            assert(s[j as int].access_count == self.slots@[j as int].access_count);
            assert(s[best as int].last_access == self.slots@[best as int].last_access);
            assert(s[best as int].access_count == self.slots@[best as int].access_count);
            let aj = self.slots[j].access_count as u128;
            let ab = self.slots[best].access_count as u128;
            let ages_j = 1 + (now - self.slots[j].last_access) as u128;
            let ages_b = 1 + (now - self.slots[best].last_access) as u128;
            assert(aj * ages_b <= u128::MAX) by (nonlinear_arith)
                requires
                    aj <= u64::MAX,
                    ages_b <= u64::MAX as u128 + 1,
            ;
            assert(ab * ages_j <= u128::MAX) by (nonlinear_arith)
                requires
                    ab <= u64::MAX,
                    ages_j <= u64::MAX as u128 + 1,
            ;
            if aj * ages_b < ab * ages_j {
                best = j;
            }
            j = j + 1;
        }
        best
    }

    /// Size estimate of a block: its entries, 4 bytes per restart point, and 64.
    pub fn estimate_block_size(&self, block: &DataBlock) -> (r: usize)
        requires
            block_cost(*block) <= usize::MAX,
        ensures
            r == block_cost(*block),
    {
        let ghost es = entry_views(block.entries@);
        proof {
            lemma_total_size_nonneg(es);
        }
        let mut size: usize = 0;
        let mut i: usize = 0;
        while i < block.entries.len()
            invariant
                es == entry_views(block.entries@),
                es.len() == block.entries@.len(),
                i <= es.len(),
                size == total_size(es.subrange(0, i as int)),
                total_size(es) + block.restart_points@.len() * 4 + 64 <= usize::MAX,
            decreases es.len() - i,
        {
            proof {
                assert(es.subrange(0, i + 1).drop_last() =~= es.subrange(0, i as int));
                lemma_total_size_concat(es.subrange(0, i + 1), es.subrange(i + 1, es.len() as int));
                assert(es.subrange(0, i + 1) + es.subrange(i + 1, es.len() as int) =~= es);
                lemma_total_size_nonneg(es.subrange(i + 1, es.len() as int));
                lemma_total_size_nonneg(es.subrange(0, i as int));
                assert(block.entries@[i as int]@ == es[i as int]);
            }
            size = size + block.entries[i].size();
            i = i + 1;
        }
        assert(es.subrange(0, i as int) =~= es);
        size = size + block.restart_points.len() * 4;
        size = size + 64;
        size
    }

    /// Inserts `block` under `key`, replacing any block cached there. Blocks are
    /// evicted, lowest score first, until the new block fits; a block larger than the
    /// whole capacity empties the cache and is not kept.
    pub fn insert(&mut self, key: BlockKey, block: Arc<DataBlock>)
        requires
            old(self).wf(),
            old(self).clock() < u64::MAX,
            block_cost(*block) + old(self).cap() <= usize::MAX,
        ensures
            final(self).wf(),
            final(self).cap() == old(self).cap(),
            final(self).hit_count() == old(self).hit_count(),
            final(self).miss_count() == old(self).miss_count(),
            block_cost(*block) > old(self).cap() ==> forall|i: int|
                0 <= i < final(self)@.len() ==> (#[trigger] final(self)@[i]).key != key,
            ({
                let (rest, n) = after_evictions(without_key(old(self)@, key), block_cost(*block), old(self).cap() as int);
                &&& final(self).eviction_count() == wrap_add(old(self).eviction_count(), n)
                &&& if block_cost(*block) <= old(self).cap() {
                    &&& final(self)@ == rest.push(
                        SlotView {
                            key,
                            size: block_cost(*block) as nat,
                            access_count: 1,
                            last_access: (old(self).clock() + 1) as nat,
                            block,
                        },
                    )
                    &&& final(self).clock() == old(self).clock() + 1
                } else {
                    &&& final(self)@ == rest
                    &&& final(self).clock() == old(self).clock()
                }
            }),
    {
        let block_size = self.estimate_block_size(&block);
        let ghost before = self@;
        self.remove(&key);
        proof {
            lemma_without_key(before, key);
        }
        let ghost base = self@;
        let ghost target = after_evictions(base, block_size as int, self.capacity as int);
        let ghost ev0 = self.evictions;
        let ghost mut evicted: nat = 0;
        while self.current_size + block_size > self.capacity && self.slots.len() > 0
            invariant
                self.wf(),
                self.capacity == old(self).capacity,
                self.access_counter == old(self).access_counter,
                self.hits == old(self).hits,
                self.misses == old(self).misses,
                block_size + self.capacity <= usize::MAX,
                after_evictions(self@, block_size as int, self.capacity as int).0 == target.0,
                after_evictions(self@, block_size as int, self.capacity as int).1 + evicted == target.1,
                self.evictions == wrap_add(ev0, evicted),
                forall|i: int| 0 <= i < self@.len() ==> (#[trigger] self@[i]).key != key,
            decreases self@.len(),
        {
            let ghost cur = self@;
            let v = self.select_victim();
            proof {
                lemma_victim_upto_range(cur, cur.len() as int);
            }
            self.remove_at(v);
            assert forall|i: int| 0 <= i < self@.len() implies (#[trigger] self@[i]).key != key by {
                let i0 = if i < v { i } else { i + 1 };
                assert(self@[i] == cur[i0]);
            }
            self.evictions = self.evictions.wrapping_add(1);
            proof {
                evicted = evicted + 1;
            }
        }
        proof {
            assert(after_evictions(self@, block_size as int, self.capacity as int) == (self@, 0nat));
        }
        if block_size <= self.capacity {
            let ghost s = self@;
            self.access_counter = self.access_counter + 1;
            let slot = CacheSlot {
                key,
                size: block_size,
                access_count: 1,
                last_access: self.access_counter,
                block,
            };
            let ghost sv = slot.view();
            self.slots.push(slot);
            self.current_size = self.current_size + block_size;
            assert(self@ =~= s.push(sv));
            proof {
                lemma_slots_size_concat(s, seq![sv]);
                lemma_slots_size_single(sv);
                assert(s + seq![sv] =~= s.push(sv));
                assert forall|a: int, b: int| 0 <= a < self@.len() && 0 <= b < self@.len() && a != b implies #[trigger] self@[a].key != #[trigger] self@[b].key by {
                    if a < s.len() && b < s.len() {
                        assert(self@[a] == s[a] && self@[b] == s[b]);
                    } else if a < s.len() {
                        assert(self@[a] == s[a]);
                    } else {
                        assert(self@[b] == s[b]);
                    }
                }
            }
        }
    }
    /// Removes all blocks; statistics and the clock are kept.
    pub fn clear(&mut self)
        requires
            old(self).wf(),
        ensures
            final(self).wf(),
            final(self)@ == Seq::<SlotView>::empty(),
            final(self).used() == 0,
            final(self).cap() == old(self).cap(),
            final(self).clock() == old(self).clock(),
            final(self).hit_count() == old(self).hit_count(),
            final(self).miss_count() == old(self).miss_count(),
            final(self).eviction_count() == old(self).eviction_count(),
    {
        self.slots = Vec::new();
        self.current_size = 0;
        assert(self@ =~= Seq::<SlotView>::empty());
    }

    /// Bytes currently cached.
    pub fn size(&self) -> (r: usize)
        ensures
            r == self.used(),
    {
        self.current_size
    }

    /// Number of cached blocks.
    pub fn entry_count(&self) -> (r: usize)
        ensures
            r == self@.len(),
    {
        self.slots.len()
    }

    /// Capacity in bytes.
    pub fn capacity(&self) -> (r: usize)
        ensures
            r == self.cap(),
    {
        self.capacity
    }

    /// Number of hits.
    pub fn hits(&self) -> (r: u64)
        ensures
            r == self.hit_count(),
    {
        self.hits
    }

    /// Number of misses.
    pub fn misses(&self) -> (r: u64)
        ensures
            r == self.miss_count(),
    {
        self.misses
    }

    /// Number of evicted blocks.
    pub fn evictions(&self) -> (r: u64)
        ensures
            r == self.eviction_count(),
    {
        self.evictions
    }

    /// Sets the hit, miss and eviction counts to zero.
    pub fn reset_stats(&mut self)
        requires
            old(self).wf(),
        ensures
            final(self).wf(),
            final(self)@ == old(self)@,
            final(self).used() == old(self).used(),
            final(self).cap() == old(self).cap(),
            final(self).clock() == old(self).clock(),
            final(self).hit_count() == 0,
            final(self).miss_count() == 0,
            final(self).eviction_count() == 0,
    {
        self.hits = 0;
        self.misses = 0;
        self.evictions = 0;
    }
}

impl Default for BlockCache {
    /// An empty cache of 8 MiB.
    fn default() -> (r: Self)
        ensures
            r.wf(),
            r@ == Seq::<SlotView>::empty(),
            r.cap() == 8 * 1024 * 1024,
    {
        BlockCache::new(8 * 1024 * 1024)
    }
}

} // verus!
