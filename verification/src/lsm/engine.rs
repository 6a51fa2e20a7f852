//! The in-memory state of an LSM tree engine and the decisions taken on it:
//! applying writes to the memtable, answering lookups from the memtables,
//! choosing the SSTables a lookup must read, freezing and flushing the
//! memtable, applying compactions, and replaying the write-ahead log.
//!
//! Reading and writing files and the log is left to the caller, which hands
//! the results back to these functions.
use vstd::prelude::*;
use crate::keyorder::{lex_le, lex_lt, key_less};
use crate::kvt::error::KeyValueError;
use crate::lsm::compaction::CompactionTask;
use crate::lsm::level::{Level, LevelStats, level_to_compact, apply_compaction, capacities_fit, capacity_fits, due_at, compacted};
use crate::lsm::memtable::{Entry, EntryView, MemTable, written_entry, next_seq, entry_views, keys_sorted};
use crate::lsm::iterator::{LSMIterator, is_merge_of, keys_nondecreasing, source_views};
use crate::kvt::types::{KeyRange, key_in_range};
use crate::lsm::sstable::{SSTableMetadata, SSTableMetadataView, metadata_views};
use crate::lsm::compaction::{default_strategy, level_bytes, CompactionStrategy};
use crate::lsm::sstable::SSTable;
use crate::lsm::table::{table_image, table_metadata};
use crate::lsm::manifest::{
    lemma_level_entries_concat, lemma_level_entries_take, level_entries, level_manifest, manifest_views, restored_counter,
    tree_manifest, ManifestEntry, ManifestEntryView,
};
use crate::lsm::wal_record::{
    WalRecordKind, decode_put, decode_delete, decode_put_committed, decode_delete_committed,
    decode_put_spec, decode_delete_spec, decode_put_committed_spec, decode_delete_committed_spec,
    decode_commit, decode_checkpoint, decode_flush_complete, decode_commit_spec, decode_checkpoint_spec,
    decode_flush_complete_spec, checkpoint_payload, encode_checkpoint,
};

verus! {

/// Number of levels of the tree.
pub const LEVEL_COUNT: usize = 7;

/// `key` lies within the key range of `t`.
pub open spec fn covers(t: SSTableMetadataView, key: Seq<u8>) -> bool {
    lex_le(t.min_key, key) && lex_le(key, t.max_key)
}

/// The tables of a level past level 0 are ordered by key and do not overlap.
pub open spec fn disjoint_sorted(s: Seq<SSTableMetadataView>) -> bool {
    &&& forall|i: int| 0 <= i < s.len() ==> lex_le(#[trigger] s[i].min_key, s[i].max_key)
    &&& forall|i: int, j: int| 0 <= i < j < s.len() ==> lex_lt(#[trigger] s[i].max_key, #[trigger] s[j].min_key)
}

/// The file numbers of the level-0 tables covering `key`, newest (last added)
/// first.
pub open spec fn level0_candidates(s: Seq<SSTableMetadataView>, key: Seq<u8>) -> Seq<u64>
    decreases s.len(),
{
    if s.len() == 0 {
        Seq::empty()
    } else {
        let rest = level0_candidates(s.drop_last(), key);
        if covers(s.last(), key) { seq![s.last().file_number] + rest } else { rest }
    }
}

/// What replaying one write-ahead log record at startup does.
pub enum StartupReplay {
    /// A write was applied to the memtable.
    Applied,
    /// The record holds no write (a commit, checkpoint or flush marker, or an
    /// unknown kind) and was skipped.
    Skipped,
}

/// What replaying one write-ahead log record during a tolerant recovery did.
#[derive(Debug, Clone, Copy, PartialEq, Eq, Structural)]
pub enum ReplayStep {
    /// A write was applied to the memtable.
    Applied,
    /// A commit or flush marker was read.
    Marker,
    /// A checkpoint marker recording the memtable sequence and the file number.
    Checkpoint { sequence: u64, file_number: u64 },
    /// The payload could not be decoded; the record was skipped.
    Malformed,
    /// The record kind is unknown; the record was skipped.
    Unknown,
}

/// What a tolerant recovery has read so far: the records it used (writes and
/// markers) and the last checkpoint marker, as (sequence, file number).
#[derive(Debug, Clone, Copy)]
pub struct RecoveryTally {
    pub recovered: u64,
    pub last_checkpoint: Option<(u64, u64)>,
}

impl RecoveryTally {
    /// Nothing read yet.
    pub fn new() -> (r: Self)
        ensures
            r.recovered == 0,
            r.last_checkpoint is None,
    {
        RecoveryTally { recovered: 0, last_checkpoint: None }
    }

    /// Accounts for one replayed record: every record that decoded counts, and a
    /// checkpoint marker becomes the last checkpoint.
    pub fn note(&mut self, step: ReplayStep)
        requires
            old(self).recovered < u64::MAX,
        ensures
            final(self).recovered == if step is Malformed || step is Unknown {
                old(self).recovered
            } else {
                (old(self).recovered + 1) as u64
            },
            final(self).last_checkpoint == match step {
                ReplayStep::Checkpoint { sequence, file_number } => Some((sequence, file_number)),
                _ => old(self).last_checkpoint,
            },
    {
        match step {
            ReplayStep::Applied | ReplayStep::Marker => {
                self.recovered = self.recovered + 1;
            },
            ReplayStep::Checkpoint { sequence, file_number } => {
                self.recovered = self.recovered + 1;
                self.last_checkpoint = Some((sequence, file_number));
            },
            ReplayStep::Malformed | ReplayStep::Unknown => {},
        }
    }
}

/// A memtable written out as a table: its file number, the memtable's next
/// sequence number, and the table's file image and metadata.
pub struct FlushedTable {
    pub file_number: u64,
    pub sequence: u64,
    pub bytes: Vec<u8>,
    pub metadata: SSTableMetadata,
}

/// The in-memory state of an LSM tree engine.
pub struct EngineState {
    memtable: MemTable,
    immutable: Option<MemTable>,
    levels: Vec<Level>,
    next_file_number: u64,
    next_commit_ts: i64,
    memtable_limit: usize,
    total_writes: u64,
    total_reads: u64,
    total_flushes: u64,
    total_compactions: u64,
}

/// Summary of an engine's state.
#[derive(Debug, Clone)]
pub struct EngineStats {
    pub memtable_size: usize,
    pub immutable_memtable_size: usize,
    pub total_writes: u64,
    pub total_reads: u64,
    pub total_flushes: u64,
    pub total_compactions: u64,
    pub levels: Vec<LevelStats>,
}

/// `key` has an uncommitted entry in `c`.
pub open spec fn pending(c: Map<Seq<u8>, EntryView>, key: Seq<u8>) -> bool {
    c.contains_key(key) && c[key].commit_ts is None
}

/// `c` after committing the pending entry of `key`, if any, at `ts`.
pub open spec fn committed(c: Map<Seq<u8>, EntryView>, key: Seq<u8>, ts: i64) -> Map<Seq<u8>, EntryView> {
    if pending(c, key) {
        c.insert(key, EntryView { commit_ts: Some(ts), ..c[key] })
    } else {
        c
    }
}

/// A counter after one more event (wrapping, as machine counters do).
pub open spec fn bump(c: u64) -> u64 {
    if c == u64::MAX { 0 } else { (c + 1) as u64 }
}

/// The commit clock after one tick (wrapping).
pub open spec fn tick_clock(t: i64) -> i64 {
    if t == i64::MAX { i64::MIN } else { (t + 1) as i64 }
}

impl EngineState {
    /// The memtable receiving writes.
    pub closed spec fn active(&self) -> MemTable {
        self.memtable
    }

    /// The memtable being flushed, if any.
    pub closed spec fn frozen(&self) -> Option<MemTable> {
        self.immutable
    }

    /// The levels of the tree.
    pub closed spec fn tree(&self) -> Seq<Level> {
        self.levels@
    }

    /// The number the next SSTable file receives.
    pub closed spec fn file_counter(&self) -> u64 {
        self.next_file_number
    }

    /// The commit timestamp the next plain write receives.
    pub closed spec fn clock(&self) -> i64 {
        self.next_commit_ts
    }

    /// Memtable size in bytes at which a flush is due.
    pub closed spec fn limit(&self) -> usize {
        self.memtable_limit
    }

    /// Counters of writes, reads, flushes and compactions.
    pub closed spec fn counters(&self) -> (u64, u64, u64, u64) {
        (self.total_writes, self.total_reads, self.total_flushes, self.total_compactions)
    }

    #[verifier::type_invariant]
    spec fn well_formed(&self) -> bool {
        &&& self.memtable.wf()
        &&& (self.immutable matches Some(m) ==> m.wf())
        &&& self.levels@.len() == LEVEL_COUNT
        &&& forall|i: int| 0 <= i < LEVEL_COUNT ==> (#[trigger] self.levels@[i]).number() == i
    }

    /// Memtables are well formed and the tree has its seven numbered levels.
    pub open spec fn valid(&self) -> bool {
        &&& self.active().wf()
        &&& (self.frozen() matches Some(m) ==> m.wf())
        &&& self.tree().len() == LEVEL_COUNT
        &&& forall|i: int| 0 <= i < LEVEL_COUNT ==> (#[trigger] self.tree()[i]).number() == i
    }

    /// A fresh engine: empty memtable, nothing frozen, seven empty levels, file
    /// numbers from 1 and commit timestamps from 1.
    pub fn new(memtable_limit: usize) -> (r: Self)
        ensures
            r.valid(),
            r.active()@.len() == 0,
            r.active().next_sequence() == 0,
            r.frozen() is None,
            forall|i: int| 0 <= i < LEVEL_COUNT ==> (#[trigger] r.tree()[i]).tables().len() == 0,
            r.file_counter() == 1,
            r.clock() == 1,
            r.limit() == memtable_limit,
            r.counters() == (0u64, 0u64, 0u64, 0u64),
    {
        let levels = fresh_levels();
        EngineState {
            memtable: MemTable::new(),
            immutable: None,
            levels,
            next_file_number: 1,
            next_commit_ts: 1,
            memtable_limit,
            total_writes: 0,
            total_reads: 0,
            total_flushes: 0,
            total_compactions: 0,
        }
    }

    /// Takes the next commit timestamp.
    fn tick(&mut self) -> (r: i64)
        ensures
            r == old(self).clock(),
            final(self).clock() == tick_clock(r),
            final(self).active() == old(self).active(),
            final(self).frozen() == old(self).frozen(),
            final(self).tree() == old(self).tree(),
            final(self).file_counter() == old(self).file_counter(),
            final(self).limit() == old(self).limit(),
            final(self).counters() == old(self).counters(),
    {
        proof { use_type_invariant(&*self); }
        let t = self.next_commit_ts;
        self.next_commit_ts = t.wrapping_add(1);
        t
    }

    /// Whether the active memtable has reached the flush threshold.
    pub fn needs_flush(&self) -> (r: bool)
        ensures
            r == (self.active().byte_size() >= self.limit()),
    {
        self.memtable.size() >= self.memtable_limit
    }

    /// Applies a plain write, once it is logged: the value is stored committed
    /// at the next commit timestamp. Returns whether a flush is now due.
    pub fn put(&mut self, key: Vec<u8>, value: Vec<u8>) -> (r: bool)
        requires
            old(self).active().byte_size() + key@.len() + value@.len() + 16 <= usize::MAX,
        ensures
            final(self).valid(),
            final(self).active().byte_size() == old(self).active().size_after_write(
                written_entry(key@, Some(value@), old(self).active().next_sequence(), Some(old(self).clock())),
            ),
            final(self).active().contents() == old(self).active().contents().insert(
                key@,
                written_entry(key@, Some(value@), old(self).active().next_sequence(), Some(old(self).clock())),
            ),
            final(self).active().next_sequence() == next_seq(old(self).active().next_sequence()),
            final(self).clock() == tick_clock(old(self).clock()),
            final(self).frozen() == old(self).frozen(),
            final(self).tree() == old(self).tree(),
            final(self).file_counter() == old(self).file_counter(),
            final(self).limit() == old(self).limit(),
            final(self).counters() == (bump(old(self).counters().0), old(self).counters().1, old(self).counters().2, old(self).counters().3),
            r == (final(self).active().byte_size() >= final(self).limit()),
    {
        proof { use_type_invariant(&*self); }
        let ts = self.tick();
        let mut m = MemTable::new();
        std::mem::swap(&mut m, &mut self.memtable);
        m.put_committed(key, value, ts);
        self.memtable = m;
        self.total_writes = self.total_writes.wrapping_add(1);
        self.needs_flush()
    }

    /// Applies a transactional write committed at `commit_ts`, once it is
    /// logged. Returns whether a flush is now due.
    pub fn put_committed(&mut self, key: Vec<u8>, value: Vec<u8>, commit_ts: i64) -> (r: bool)
        requires
            old(self).active().byte_size() + key@.len() + value@.len() + 16 <= usize::MAX,
        ensures
            final(self).valid(),
            final(self).active().byte_size() == old(self).active().size_after_write(
                written_entry(key@, Some(value@), old(self).active().next_sequence(), Some(commit_ts)),
            ),
            final(self).active().contents() == old(self).active().contents().insert(
                key@,
                written_entry(key@, Some(value@), old(self).active().next_sequence(), Some(commit_ts)),
            ),
            final(self).active().next_sequence() == next_seq(old(self).active().next_sequence()),
            final(self).clock() == old(self).clock(),
            final(self).frozen() == old(self).frozen(),
            final(self).tree() == old(self).tree(),
            final(self).file_counter() == old(self).file_counter(),
            final(self).limit() == old(self).limit(),
            final(self).counters() == (bump(old(self).counters().0), old(self).counters().1, old(self).counters().2, old(self).counters().3),
            r == (final(self).active().byte_size() >= final(self).limit()),
    {
        proof { use_type_invariant(&*self); }
        let mut m = MemTable::new();
        std::mem::swap(&mut m, &mut self.memtable);
        m.put_committed(key, value, commit_ts);
        self.memtable = m;
        self.total_writes = self.total_writes.wrapping_add(1);
        self.needs_flush()
    }

    /// Applies a plain deletion, once it is logged: a tombstone committed at the
    /// next commit timestamp. Returns whether a flush is now due.
    pub fn delete(&mut self, key: Vec<u8>) -> (r: bool)
        requires
            old(self).active().byte_size() + key@.len() + 16 <= usize::MAX,
        ensures
            final(self).valid(),
            final(self).active().byte_size() == old(self).active().size_after_write(
                written_entry(key@, None, old(self).active().next_sequence(), Some(old(self).clock())),
            ),
            final(self).active().contents() == old(self).active().contents().insert(
                key@,
                written_entry(key@, None, old(self).active().next_sequence(), Some(old(self).clock())),
            ),
            final(self).active().next_sequence() == next_seq(old(self).active().next_sequence()),
            final(self).clock() == tick_clock(old(self).clock()),
            final(self).frozen() == old(self).frozen(),
            final(self).tree() == old(self).tree(),
            final(self).file_counter() == old(self).file_counter(),
            final(self).limit() == old(self).limit(),
            final(self).counters() == (bump(old(self).counters().0), old(self).counters().1, old(self).counters().2, old(self).counters().3),
            r == (final(self).active().byte_size() >= final(self).limit()),
    {
        proof { use_type_invariant(&*self); }
        let ts = self.tick();
        let mut m = MemTable::new();
        std::mem::swap(&mut m, &mut self.memtable);
        m.delete_committed(key, ts);
        self.memtable = m;
        self.total_writes = self.total_writes.wrapping_add(1);
        self.needs_flush()
    }

    /// Applies a transactional deletion committed at `commit_ts`, once it is
    /// logged. Returns whether a flush is now due.
    pub fn delete_committed(&mut self, key: Vec<u8>, commit_ts: i64) -> (r: bool)
        requires
            old(self).active().byte_size() + key@.len() + 16 <= usize::MAX,
        ensures
            final(self).valid(),
            final(self).active().byte_size() == old(self).active().size_after_write(
                written_entry(key@, None, old(self).active().next_sequence(), Some(commit_ts)),
            ),
            final(self).active().contents() == old(self).active().contents().insert(
                key@,
                written_entry(key@, None, old(self).active().next_sequence(), Some(commit_ts)),
            ),
            final(self).active().next_sequence() == next_seq(old(self).active().next_sequence()),
            final(self).clock() == old(self).clock(),
            final(self).frozen() == old(self).frozen(),
            final(self).tree() == old(self).tree(),
            final(self).file_counter() == old(self).file_counter(),
            final(self).limit() == old(self).limit(),
            final(self).counters() == (bump(old(self).counters().0), old(self).counters().1, old(self).counters().2, old(self).counters().3),
            r == (final(self).active().byte_size() >= final(self).limit()),
    {
        proof { use_type_invariant(&*self); }
        let mut m = MemTable::new();
        std::mem::swap(&mut m, &mut self.memtable);
        m.delete_committed(key, commit_ts);
        self.memtable = m;
        self.total_writes = self.total_writes.wrapping_add(1);
        self.needs_flush()
    }

    /// Looks `key` up in the memtables, the active one first: the newest entry
    /// held in memory (a tombstone included), or `None` when the SSTables must
    /// be read. Counts the read.
    pub fn lookup(&mut self, key: &[u8]) -> (r: Option<Entry>)
        ensures
            final(self).active() == old(self).active(),
            final(self).frozen() == old(self).frozen(),
            final(self).tree() == old(self).tree(),
            final(self).clock() == old(self).clock(),
            final(self).file_counter() == old(self).file_counter(),
            final(self).limit() == old(self).limit(),
            final(self).counters() == (old(self).counters().0, bump(old(self).counters().1), old(self).counters().2, old(self).counters().3),
            match r {
                Some(e) => if old(self).active().contents().contains_key(key@) {
                    e@ == old(self).active().contents()[key@]
                } else {
                    old(self).frozen() matches Some(m) && m.contents().contains_key(key@) && e@ == m.contents()[key@]
                },
                None => !old(self).active().contents().contains_key(key@) && !(old(self).frozen() matches Some(m)
                    && m.contents().contains_key(key@)),
            },
    {
        proof { use_type_invariant(&*self); }
        self.total_reads = self.total_reads.wrapping_add(1);
        match self.memtable.get(key) {
            Some(e) => Some(e),
            None => match &self.immutable {
                Some(m) => m.get(key),
                None => None,
            },
        }
    }

    /// Looks `key` up in the memtables as a snapshot taken at `snapshot_ts`
    /// sees them: the active memtable's entry if visible, else the frozen
    /// memtable's if visible, else `None`. Counts the read.
    pub fn lookup_at_snapshot(&mut self, key: &[u8], snapshot_ts: i64) -> (r: Option<Entry>)
        ensures
            final(self).active() == old(self).active(),
            final(self).frozen() == old(self).frozen(),
            final(self).tree() == old(self).tree(),
            final(self).clock() == old(self).clock(),
            final(self).file_counter() == old(self).file_counter(),
            final(self).limit() == old(self).limit(),
            final(self).counters() == (old(self).counters().0, bump(old(self).counters().1), old(self).counters().2, old(self).counters().3),
            ({
                let a = old(self).active().contents();
                let in_active = a.contains_key(key@) && a[key@].is_visible(snapshot_ts);
                let in_frozen = old(self).frozen() matches Some(m) && m.contents().contains_key(key@)
                    && m.contents()[key@].is_visible(snapshot_ts);
                match r {
                    Some(e) => if in_active {
                        e@ == a[key@]
                    } else {
                        in_frozen && e@ == old(self).frozen()->0.contents()[key@]
                    },
                    None => !in_active && !in_frozen,
                }
            }),
            r matches Some(e) ==> (e@.commit_ts matches Some(c) && c <= snapshot_ts),
            ({
                let a = old(self).active().contents();
                a.contains_key(key@) && a[key@].commit_ts is None && (old(self).frozen() matches Some(m)
                    ==> !m.contents().contains_key(key@) || m.contents()[key@].commit_ts is None) ==> r is None
            }),
    {
        proof { use_type_invariant(&*self); }
        self.total_reads = self.total_reads.wrapping_add(1);
        match self.memtable.get_at_snapshot(key, snapshot_ts) {
            Some(e) => Some(e),
            None => match &self.immutable {
                Some(m) => m.get_at_snapshot(key, snapshot_ts),
                None => None,
            },
        }
    }

    /// Commits the pending entry of `key` at `commit_ts` in the active
    /// memtable, or else in the frozen one. Returns whether an entry was found
    /// there (an entry already flushed needs nothing).
    pub fn commit_entry(&mut self, key: &[u8], commit_ts: i64) -> (r: bool)
        ensures
            final(self).valid(),
            final(self).active().byte_size() == old(self).active().byte_size(),
            final(self).tree() == old(self).tree(),
            final(self).clock() == old(self).clock(),
            final(self).file_counter() == old(self).file_counter(),
            final(self).limit() == old(self).limit(),
            final(self).counters() == old(self).counters(),
            final(self).active().contents() == committed(old(self).active().contents(), key@, commit_ts),
            pending(old(self).active().contents(), key@) ==> final(self).frozen() == old(self).frozen(),
            !pending(old(self).active().contents(), key@) ==> match old(self).frozen() {
                Some(m) => final(self).frozen() matches Some(f) && f.contents() == committed(m.contents(), key@, commit_ts),
                None => final(self).frozen() is None,
            },
            r == (pending(old(self).active().contents(), key@) || (old(self).frozen() matches Some(m) && pending(
                m.contents(),
                key@,
            ))),
    {
        proof { use_type_invariant(&*self); }
        let mut m = MemTable::new();
        std::mem::swap(&mut m, &mut self.memtable);
        let found = m.commit_entry(key, commit_ts);
        self.memtable = m;
        if found {
            return true;
        }
        let mut frozen: Option<MemTable> = None;
        std::mem::swap(&mut frozen, &mut self.immutable);
        let r = match frozen {
            Some(mut m) => {
                let found = m.commit_entry(key, commit_ts);
                self.immutable = Some(m);
                found
            },
            None => false,
        };
        r
    }

    /// Freezes the active memtable for flushing and starts a new one, unless a
    /// frozen memtable is still being flushed. Returns whether it froze.
    pub fn begin_flush(&mut self) -> (r: bool)
        ensures
            r == (old(self).frozen() is None),
            r ==> final(self).frozen() == Some(old(self).active()) && final(self).active()@.len() == 0
                && final(self).active().next_sequence() == 0,
            !r ==> *final(self) == *old(self),
            final(self).tree() == old(self).tree(),
            final(self).clock() == old(self).clock(),
            final(self).file_counter() == old(self).file_counter(),
            final(self).limit() == old(self).limit(),
            final(self).counters() == old(self).counters(),
    {
        proof { use_type_invariant(&*self); }
        if self.immutable.is_some() {
            return false;
        }
        let mut fresh = MemTable::new();
        std::mem::swap(&mut fresh, &mut self.memtable);
        self.immutable = Some(fresh);
        true
    }

    /// The entries of the frozen memtable in key order, with its next
    /// sequence number; `None` when nothing is frozen or it is empty.
    pub fn flush_contents(&self) -> (r: Option<(Vec<Entry>, u64)>)
        ensures
            match r {
                Some((es, seq)) => self.frozen() matches Some(m) && m@.len() > 0 && crate::lsm::memtable::entry_views(es@)
                    == m@ && seq == m.next_sequence(),
                None => !(self.frozen() matches Some(m) && m@.len() > 0),
            },
    {
        proof { use_type_invariant(self); }
        match &self.immutable {
            Some(m) => {
                if m.is_empty() {
                    None
                } else {
                    Some((m.entries(), m.current_sequence()))
                }
            },
            None => None,
        }
    }

    /// Writes the frozen memtable out as a level-0 table: takes the next file number
    /// and builds the table's file image and metadata, with data blocks of about
    /// `block_size` bytes. Nothing happens when no non-empty memtable is frozen.
    pub fn flush_table(&mut self, block_size: usize) -> (r: Option<FlushedTable>)
        ensures
            match r {
                Some(t) => old(self).frozen() matches Some(m) && m@.len() > 0
                    && t.file_number == old(self).file_counter()
                    && final(self).file_counter() == bump(old(self).file_counter())
                    && t.sequence == m.next_sequence()
                    && t.bytes@ == table_image(m@, block_size as int)
                    && t.metadata@ == table_metadata(m@, t.file_number, 0, t.bytes@.len(), t.metadata.created_at),
                None => !(old(self).frozen() matches Some(m) && m@.len() > 0)
                    && final(self).file_counter() == old(self).file_counter(),
            },
            final(self).active() == old(self).active(),
            final(self).frozen() == old(self).frozen(),
            final(self).tree() == old(self).tree(),
            final(self).clock() == old(self).clock(),
            final(self).limit() == old(self).limit(),
            final(self).counters() == old(self).counters(),
    {
        proof { use_type_invariant(&*self); }
        let (entries, sequence) = match self.flush_contents() {
            Some(c) => c,
            None => return None,
        };
        proof {
            let m = self.frozen().unwrap();
            m.lemma_wf();
            crate::lsm::memtable::lemma_total_size_lower(m@);
        }
        let file_number = self.allocate_file_number();
        match SSTable::create(entries, file_number, 0, block_size) {
            Ok((bytes, metadata)) => Some(FlushedTable { file_number, sequence, bytes, metadata }),
            Err(_) => None,
        }
    }

    /// The payload of the checkpoint record that marks the engine's current state:
    /// the active memtable's next sequence number and the next file number.
    pub fn checkpoint_payload(&self) -> (r: Vec<u8>)
        ensures
            r@ == checkpoint_payload(self.active().next_sequence(), self.file_counter()),
    {
        proof { use_type_invariant(self); }
        encode_checkpoint(self.memtable.current_sequence(), self.next_file_number)
    }

    /// Takes the number of the next SSTable file.
    pub fn allocate_file_number(&mut self) -> (r: u64)
        ensures
            r == old(self).file_counter(),
            final(self).file_counter() == bump(r),
            final(self).active() == old(self).active(),
            final(self).frozen() == old(self).frozen(),
            final(self).tree() == old(self).tree(),
            final(self).clock() == old(self).clock(),
            final(self).limit() == old(self).limit(),
            final(self).counters() == old(self).counters(),
    {
        proof { use_type_invariant(&*self); }
        let n = self.next_file_number;
        self.next_file_number = n.wrapping_add(1);
        n
    }

    /// Records a flushed SSTable at level 0 and counts the flush.
    pub fn add_flushed_table(&mut self, metadata: SSTableMetadata)
        requires
            old(self).tree()[0].size() + metadata.file_size <= u64::MAX,
        ensures
            final(self).tree().len() == old(self).tree().len(),
            final(self).tree()[0].tables() == old(self).tree()[0].tables().push(metadata@),
            forall|i: int| 1 <= i < old(self).tree().len() ==> #[trigger] final(self).tree()[i] == old(self).tree()[i],
            final(self).active() == old(self).active(),
            final(self).frozen() == old(self).frozen(),
            final(self).clock() == old(self).clock(),
            final(self).file_counter() == old(self).file_counter(),
            final(self).limit() == old(self).limit(),
            final(self).counters() == (old(self).counters().0, old(self).counters().1, bump(old(self).counters().2), old(self).counters().3),
    {
        proof { use_type_invariant(&*self); }
        let mut levels = fresh_levels();
        std::mem::swap(&mut levels, &mut self.levels);
        let mut l0 = levels.remove(0);
        l0.add_sstable(metadata);
        levels.insert(0, l0);
        assert forall|i: int| 1 <= i < levels@.len() implies #[trigger] levels@[i] == old(self).tree()[i] by {}
        self.levels = levels;
        self.total_flushes = self.total_flushes.wrapping_add(1);
    }

    /// Drops the frozen memtable once its flush has ended.
    pub fn end_flush(&mut self)
        ensures
            final(self).frozen() is None,
            final(self).active() == old(self).active(),
            final(self).tree() == old(self).tree(),
            final(self).clock() == old(self).clock(),
            final(self).file_counter() == old(self).file_counter(),
            final(self).limit() == old(self).limit(),
            final(self).counters() == old(self).counters(),
    {
        proof { use_type_invariant(&*self); }
        self.immutable = None;
    }

    /// The file numbers of the SSTables that may hold `key`, in the order a
    /// lookup reads them: the level-0 tables whose range covers the key,
    /// newest first, then for each deeper level the table a binary search by
    /// key range finds there, if any.
    pub fn sstable_candidates(&self, key: &[u8]) -> (r: Vec<u64>)
        ensures
            r@ == level0_candidates(self.tree()[0].tables(), key@) + deeper_candidates(self.tree(), key@, 1),
    {
        proof { use_type_invariant(self); }
        let mut out: Vec<u64> = Vec::new();
        let l0 = &self.levels[0];
        let n = l0.table_count();
        let mut i: usize = n;
        assert(l0.tables().subrange(0, n as int) =~= l0.tables());
        assert(out@ + level0_candidates(l0.tables().subrange(0, n as int), key@) =~= level0_candidates(l0.tables(), key@));
        while i > 0
            invariant
                i <= n,
                n == l0.tables().len(),
                out@ + level0_candidates(l0.tables().subrange(0, i as int), key@) == level0_candidates(l0.tables(), key@),
            decreases i,
        {
            let t = l0.table_at(i - 1);
            let ge_min = !key_less(key, t.min_key.as_slice());
            let le_max = !key_less(t.max_key.as_slice(), key);
            proof {
                let s = l0.tables().subrange(0, i as int);
                assert(s.drop_last() =~= l0.tables().subrange(0, i - 1));
                assert(s.last() == l0.tables()[i - 1]);
                crate::keyorder::lemma_lex_trichotomy(key@, t.min_key@);
                crate::keyorder::lemma_lex_trichotomy(key@, t.max_key@);
            }
            if ge_min && le_max {
                out.push(t.file_number);
            }
            i = i - 1;
            proof {
                assert(out@ + level0_candidates(l0.tables().subrange(0, i as int), key@) =~= level0_candidates(l0.tables(), key@));
            }
        }
        assert(l0.tables().subrange(0, 0) =~= Seq::<SSTableMetadataView>::empty());
        assert(out@ =~= level0_candidates(l0.tables(), key@));
        let ghost head = out@;
        let mut lv: usize = 1;
        while lv < self.levels.len()
            invariant
                1 <= lv <= self.levels@.len(),
                self.levels@.len() == LEVEL_COUNT,
                out@ + deeper_candidates(self.levels@, key@, lv as int) == head + deeper_candidates(self.levels@, key@, 1),
            decreases self.levels@.len() - lv,
        {
            let found = search_level(&self.levels[lv], key);
            match found {
                Some(idx) => {
                    out.push(self.levels[lv].table_at(idx).file_number);
                },
                None => {},
            }
            proof {
                assert(out@ + deeper_candidates(self.levels@, key@, lv + 1) =~= head + deeper_candidates(self.levels@, key@, 1));
            }
            lv = lv + 1;
        }
        assert(deeper_candidates(self.levels@, key@, lv as int) =~= Seq::<u64>::empty());
        assert(out@ =~= head + deeper_candidates(self.levels@, key@, 1));
        out
    }

    /// The first level due for compaction, scanning from level 0.
    pub fn compaction_target(&self) -> (r: Option<usize>)
        requires
            capacities_fit(LEVEL_COUNT as int, self.limit() as int),
        ensures
            match r {
                Some(i) => i < LEVEL_COUNT && due_at(self.tree(), i as int, self.limit() as int) && forall|j: int|
                    0 <= j < i ==> !due_at(self.tree(), j, self.limit() as int),
                None => forall|j: int| 0 <= j < LEVEL_COUNT ==> !due_at(self.tree(), j, self.limit() as int),
            },
    {
        proof { use_type_invariant(self); }
        level_to_compact(&self.levels, self.memtable_limit)
    }

    /// Counts a compaction run and chooses what it merges: the default strategy
    /// over the current tables, with the memtable limit as base size.
    pub fn plan_compaction(&mut self) -> (r: Option<CompactionTask>)
        requires
            capacities_fit(LEVEL_COUNT as int, old(self).limit() as int),
        ensures
            match (r, default_strategy().selection(level_views(old(self).tree()), old(self).limit() as u64)) {
                (Some(t), Some((sl, tl, src, tgt))) => t.source_level == sl && t.target_level == tl
                    && metadata_views(t.source_sstables@) == src && metadata_views(t.target_sstables@) == tgt,
                (None, None) => true,
                _ => false,
            },
            final(self).tree() == old(self).tree(),
            final(self).active() == old(self).active(),
            final(self).frozen() == old(self).frozen(),
            final(self).clock() == old(self).clock(),
            final(self).file_counter() == old(self).file_counter(),
            final(self).limit() == old(self).limit(),
            final(self).counters() == (old(self).counters().0, old(self).counters().1, old(self).counters().2, bump(old(self).counters().3)),
    {
        proof { use_type_invariant(&*self); }
        self.total_compactions = self.total_compactions.wrapping_add(1);
        let ghost tree = self.levels@;
        let mut snaps: Vec<Vec<SSTableMetadata>> = Vec::new();
        let mut i: usize = 0;
        while i < self.levels.len()
            invariant
                tree == self.levels@,
                tree.len() == LEVEL_COUNT,
                i <= LEVEL_COUNT,
                snaps@.len() == i,
                forall|j: int| 0 <= j < i ==> metadata_views((#[trigger] snaps@[j])@) == tree[j].tables(),
                forall|j: int| 0 <= j < i ==> level_bytes(#[trigger] tree[j].tables()) <= u64::MAX,
            decreases LEVEL_COUNT - i,
        {
            let st = self.levels[i].stats();
            snaps.push(self.levels[i].sstables());
            i = i + 1;
        }
        let ghost lv = snaps@.map_values(|l: Vec<SSTableMetadata>| metadata_views(l@));
        assert(lv =~= level_views(tree)) by {
            assert forall|j: int| 0 <= j < lv.len() implies lv[j] == level_views(tree)[j] by {
                assert(metadata_views(snaps@[j]@) == tree[j].tables());
            }
        }
        let strategy = CompactionStrategy::default();
        proof {
            lemma_scan_fits(lv, self.memtable_limit as u64, 1);
        }
        strategy.select_compaction(snaps.as_slice(), self.memtable_limit as u64)
    }

    /// Applies the result of a compaction: the merged tables leave their levels
    /// and the new tables join the target level.
    pub fn apply_compaction(&mut self, task: &CompactionTask, new_sstables: &Vec<SSTableMetadata>)
        requires
            task.source_level < LEVEL_COUNT,
            task.target_level < LEVEL_COUNT,
            old(self).tree()[task.target_level as int].size() + level_bytes(metadata_views(new_sstables@)) <= u64::MAX,
        ensures
            final(self).tree().len() == old(self).tree().len(),
            forall|j: int| 0 <= j < old(self).tree().len() ==> (#[trigger] final(self).tree()[j]).tables() == compacted(
                old(self).tree()[j].tables(),
                j,
                task.source_level as int,
                task.target_level as int,
                metadata_views(task.source_sstables@),
                metadata_views(task.target_sstables@),
                metadata_views(new_sstables@),
            ),
            final(self).active() == old(self).active(),
            final(self).frozen() == old(self).frozen(),
            final(self).clock() == old(self).clock(),
            final(self).file_counter() == old(self).file_counter(),
            final(self).limit() == old(self).limit(),
            final(self).counters() == old(self).counters(),
    {
        proof { use_type_invariant(&*self); }
        let mut levels = fresh_levels();
        std::mem::swap(&mut levels, &mut self.levels);
        apply_compaction(&mut levels, task, new_sstables);
        self.levels = levels;
    }

    /// Replays one record of the write-ahead log at startup: writes go to the
    /// active memtable as committed (plain writes at the next commit
    /// timestamp); markers and unknown kinds are skipped; a write whose
    /// payload cannot be decoded stops recovery with the decoding error.
    pub fn replay_startup_record(&mut self, kind: u16, payload: &[u8]) -> (r: Result<StartupReplay, KeyValueError>)
        requires
            old(self).active().byte_size() + payload@.len() + 16 <= usize::MAX,
        ensures
            final(self).valid(),
            final(self).active().byte_size() <= old(self).active().byte_size() + payload@.len() + 16,
            final(self).tree() == old(self).tree(),
            final(self).frozen() == old(self).frozen(),
            final(self).file_counter() == old(self).file_counter(),
            final(self).limit() == old(self).limit(),
            final(self).counters() == old(self).counters(),
            match WalRecordKind::from_code(kind) {
                Some(WalRecordKind::Put) => match decode_put_spec(payload@) {
                    Ok((k, v)) => r matches Ok(StartupReplay::Applied) && final(self).active().contents()
                        == old(self).active().contents().insert(
                        k,
                        written_entry(k, Some(v), old(self).active().next_sequence(), Some(old(self).clock())),
                    ) && final(self).clock() == tick_clock(old(self).clock()),
                    Err(msg) => r matches Err(e) && e.is_storage_corruption(msg) && *final(self) == *old(self),
                },
                Some(WalRecordKind::PutCommitted) => match decode_put_committed_spec(payload@) {
                    Ok((k, v, ts)) => r matches Ok(StartupReplay::Applied) && final(self).active().contents()
                        == old(self).active().contents().insert(
                        k,
                        written_entry(k, Some(v), old(self).active().next_sequence(), Some(ts)),
                    ) && final(self).clock() == old(self).clock(),
                    Err(msg) => r matches Err(e) && e.is_storage_corruption(msg) && *final(self) == *old(self),
                },
                Some(WalRecordKind::Delete) => match decode_delete_spec(payload@) {
                    Ok(k) => r matches Ok(StartupReplay::Applied) && final(self).active().contents()
                        == old(self).active().contents().insert(
                        k,
                        written_entry(k, None, old(self).active().next_sequence(), Some(old(self).clock())),
                    ) && final(self).clock() == tick_clock(old(self).clock()),
                    Err(msg) => r matches Err(e) && e.is_storage_corruption(msg) && *final(self) == *old(self),
                },
                Some(WalRecordKind::DeleteCommitted) => match decode_delete_committed_spec(payload@) {
                    Ok((k, ts)) => r matches Ok(StartupReplay::Applied) && final(self).active().contents()
                        == old(self).active().contents().insert(
                        k,
                        written_entry(k, None, old(self).active().next_sequence(), Some(ts)),
                    ) && final(self).clock() == old(self).clock(),
                    Err(msg) => r matches Err(e) && e.is_storage_corruption(msg) && *final(self) == *old(self),
                },
                _ => r matches Ok(StartupReplay::Skipped) && *final(self) == *old(self),
            },
    {
        proof { use_type_invariant(&*self); }
        match WalRecordKind::from_u16(kind) {
            Some(WalRecordKind::Put) => {
                let (key, value) = match decode_put(payload) {
                    Ok(kv) => kv,
                    Err(e) => return Err(e),
                };
                let ts = self.tick();
                let mut m = MemTable::new();
        std::mem::swap(&mut m, &mut self.memtable);
        m.put_committed(key, value, ts);
        self.memtable = m;
                Ok(StartupReplay::Applied)
            },
            Some(WalRecordKind::PutCommitted) => {
                let (key, value, ts) = match decode_put_committed(payload) {
                    Ok(kv) => kv,
                    Err(e) => return Err(e),
                };
                let mut m = MemTable::new();
        std::mem::swap(&mut m, &mut self.memtable);
        m.put_committed(key, value, ts);
        self.memtable = m;
                Ok(StartupReplay::Applied)
            },
            Some(WalRecordKind::Delete) => {
                let key = match decode_delete(payload) {
                    Ok(k) => k,
                    Err(e) => return Err(e),
                };
                let ts = self.tick();
                let mut m = MemTable::new();
        std::mem::swap(&mut m, &mut self.memtable);
        m.delete_committed(key, ts);
        self.memtable = m;
                Ok(StartupReplay::Applied)
            },
            Some(WalRecordKind::DeleteCommitted) => {
                let (key, ts) = match decode_delete_committed(payload) {
                    Ok(k) => k,
                    Err(e) => return Err(e),
                };
                let mut m = MemTable::new();
        std::mem::swap(&mut m, &mut self.memtable);
        m.delete_committed(key, ts);
        self.memtable = m;
                Ok(StartupReplay::Applied)
            },
            _ => Ok(StartupReplay::Skipped),
        }
    }

    /// Replays one record of the write-ahead log during a tolerant recovery:
    /// writes go to the active memtable (plain writes uncommitted, committed
    /// ones with their timestamps); markers are read; records that cannot be
    /// decoded and unknown kinds are skipped.
    pub fn replay_record(&mut self, kind: u16, payload: &[u8]) -> (r: ReplayStep)
        requires
            old(self).active().byte_size() + payload@.len() + 16 <= usize::MAX,
        ensures
            final(self).valid(),
            final(self).active().byte_size() <= old(self).active().byte_size() + payload@.len() + 16,
            final(self).tree() == old(self).tree(),
            final(self).frozen() == old(self).frozen(),
            final(self).clock() == old(self).clock(),
            final(self).file_counter() == old(self).file_counter(),
            final(self).limit() == old(self).limit(),
            final(self).counters() == old(self).counters(),
            !(r is Applied) ==> final(self).active() == old(self).active(),
            match WalRecordKind::from_code(kind) {
                Some(WalRecordKind::Put) => match decode_put_spec(payload@) {
                    Ok((k, v)) => r is Applied && final(self).active().contents() == old(self).active().contents().insert(
                        k,
                        written_entry(k, Some(v), old(self).active().next_sequence(), None),
                    ),
                    Err(_) => r is Malformed,
                },
                Some(WalRecordKind::Delete) => match decode_delete_spec(payload@) {
                    Ok(k) => r is Applied && final(self).active().contents() == old(self).active().contents().insert(
                        k,
                        written_entry(k, None, old(self).active().next_sequence(), None),
                    ),
                    Err(_) => r is Malformed,
                },
                Some(WalRecordKind::PutCommitted) => match decode_put_committed_spec(payload@) {
                    Ok((k, v, ts)) => r is Applied && final(self).active().contents() == old(self).active().contents().insert(
                        k,
                        written_entry(k, Some(v), old(self).active().next_sequence(), Some(ts)),
                    ),
                    Err(_) => r is Malformed,
                },
                Some(WalRecordKind::DeleteCommitted) => match decode_delete_committed_spec(payload@) {
                    Ok((k, ts)) => r is Applied && final(self).active().contents() == old(self).active().contents().insert(
                        k,
                        written_entry(k, None, old(self).active().next_sequence(), Some(ts)),
                    ),
                    Err(_) => r is Malformed,
                },
                Some(WalRecordKind::Commit) => if decode_commit_spec(payload@) is Ok { r is Marker } else { r is Malformed },
                Some(WalRecordKind::Checkpoint) => match decode_checkpoint_spec(payload@) {
                    Ok((seq, file)) => r == (ReplayStep::Checkpoint { sequence: seq, file_number: file }),
                    Err(_) => r is Malformed,
                },
                Some(WalRecordKind::FlushComplete) => if decode_flush_complete_spec(payload@) is Ok { r is Marker } else { r is Malformed },
                None => r is Unknown,
            },
    {
        proof { use_type_invariant(&*self); }
        match WalRecordKind::from_u16(kind) {
            Some(WalRecordKind::Put) => match decode_put(payload) {
                Ok((key, value)) => {
                    let mut m = MemTable::new();
                    std::mem::swap(&mut m, &mut self.memtable);
                    m.put(key, value);
                    self.memtable = m;
                    ReplayStep::Applied
                },
                Err(_) => ReplayStep::Malformed,
            },
            Some(WalRecordKind::Delete) => match decode_delete(payload) {
                Ok(key) => {
                    let mut m = MemTable::new();
                    std::mem::swap(&mut m, &mut self.memtable);
                    m.delete(key);
                    self.memtable = m;
                    ReplayStep::Applied
                },
                Err(_) => ReplayStep::Malformed,
            },
            Some(WalRecordKind::PutCommitted) => match decode_put_committed(payload) {
                Ok((key, value, ts)) => {
                    let mut m = MemTable::new();
                    std::mem::swap(&mut m, &mut self.memtable);
                    m.put_committed(key, value, ts);
                    self.memtable = m;
                    ReplayStep::Applied
                },
                Err(_) => ReplayStep::Malformed,
            },
            Some(WalRecordKind::DeleteCommitted) => match decode_delete_committed(payload) {
                Ok((key, ts)) => {
                    let mut m = MemTable::new();
                    std::mem::swap(&mut m, &mut self.memtable);
                    m.delete_committed(key, ts);
                    self.memtable = m;
                    ReplayStep::Applied
                },
                Err(_) => ReplayStep::Malformed,
            },
            Some(WalRecordKind::Commit) => match decode_commit(payload) {
                Ok(_) => ReplayStep::Marker,
                Err(_) => ReplayStep::Malformed,
            },
            Some(WalRecordKind::Checkpoint) => match decode_checkpoint(payload) {
                Ok((sequence, file_number)) => ReplayStep::Checkpoint { sequence, file_number },
                Err(_) => ReplayStep::Malformed,
            },
            Some(WalRecordKind::FlushComplete) => match decode_flush_complete(payload) {
                Ok(_) => ReplayStep::Marker,
                Err(_) => ReplayStep::Malformed,
            },
            None => ReplayStep::Unknown,
        }
    }

    /// A scan of `range` over the shard's data: the entries within the range of
    /// the active memtable, the frozen memtable and the table files, whose
    /// entries `tables` holds newest first, merged so that for each key the
    /// newest entry wins; in ascending key order (descending if the range is
    /// reversed), deletions hidden, limited to the range's limit.
    pub fn scan(&self, range: &KeyRange, tables: &Vec<Vec<Entry>>) -> (r: LSMIterator)
        requires
            forall|t: int| 0 <= t < tables@.len() ==> keys_nondecreasing(entry_views(#[trigger] tables@[t]@)),
        ensures
            is_merge_of(
                if range.reverse { r.pairs().reverse() } else { r.pairs() },
                scan_sources(self.active(), self.frozen(), source_views(tables@), *range),
            ),
            r.pos() == 0,
            r.max_results() == range.limit,
            r.is_reverse() == range.reverse,
    {
        proof { use_type_invariant(self); }
        let mut sources: Vec<Vec<Entry>> = Vec::new();
        sources.push(entries_in_range(&self.memtable, range));
        match &self.immutable {
            Some(m) => {
                sources.push(entries_in_range(m, range));
            },
            None => {},
        }
        let ghost head = source_views(sources@);
        let ghost tv = source_views(tables@);
        assert forall|s: int| 0 <= s < sources@.len() implies keys_nondecreasing(#[trigger] source_views(sources@)[s]) by {
            crate::lsm::iterator::lemma_sorted_nondecreasing(source_views(sources@)[s]);
        }
        let mut t: usize = 0;
        while t < tables.len()
            invariant
                t <= tables@.len(),
                tv == source_views(tables@),
                forall|u: int| 0 <= u < tables@.len() ==> keys_nondecreasing(entry_views(#[trigger] tables@[u]@)),
                source_views(sources@) == head + tv.take(t as int).map_values(|es: Seq<EntryView>| es.filter(range_pred(*range))),
                forall|s: int| 0 <= s < sources@.len() ==> keys_nondecreasing(#[trigger] source_views(sources@)[s]),
            decreases tables@.len() - t,
        {
            let filtered = table_entries_in_range(&tables[t], range);
            let ghost before = source_views(sources@);
            sources.push(filtered);
            assert(tv[t as int] == entry_views(tables@[t as int]@));
            assert(tv.take(t + 1) =~= tv.take(t as int).push(tv[t as int]));
            assert(source_views(sources@) =~= before.push(entry_views(filtered@)));
            assert(source_views(sources@) =~= head + tv.take(t + 1).map_values(|es: Seq<EntryView>| es.filter(range_pred(*range))));
            t = t + 1;
        }
        assert(tv.take(t as int) =~= tv);
        assert(source_views(sources@) =~= scan_sources(self.active(), self.frozen(), tv, *range));
        let mut it = LSMIterator::merge(sources, range.reverse);
        match range.limit {
            Some(limit) => it.set_limit(limit),
            None => {},
        }
        it
    }

    /// The estimated number of keys of the shard: a thousand per SSTable plus
    /// the entries of the active memtable; `None` where that does not fit in 64 bits.
    pub fn key_count(&self) -> (r: Option<u64>)
        ensures
            match r {
                Some(n) => n == estimated_keys(self.tree(), LEVEL_COUNT as int) + self.active()@.len(),
                None => estimated_keys(self.tree(), LEVEL_COUNT as int) + self.active()@.len() > u64::MAX,
            },
    {
        proof { use_type_invariant(self); }
        let mut count: u64 = 0;
        let mut i: usize = 0;
        while i < self.levels.len()
            invariant
                i <= self.levels@.len(),
                self.levels@.len() == LEVEL_COUNT,
                count == estimated_keys(self.levels@, i as int),
            decreases self.levels@.len() - i,
        {
            proof { lemma_estimated_keys_mono(self.levels@, i + 1, LEVEL_COUNT as int); }
            let step = match (self.levels[i].table_count() as u64).checked_mul(1000) {
                Some(x) => x,
                None => return None,
            };
            count = match count.checked_add(step) {
                Some(c) => c,
                None => return None,
            };
            i = i + 1;
        }
        count.checked_add(self.memtable.entry_count() as u64)
    }

    /// Bytes held by the shard: the memtables plus every level, as (total,
    /// data) bytes, the two agreeing as index bytes are not counted apart;
    /// `None` where the sum does not fit in 64 bits.
    pub fn byte_totals(&self) -> (r: Option<(u64, u64)>)
        ensures
            match r {
                Some((t, d)) => t == self.active().byte_size() + frozen_bytes(self.frozen()) + tree_bytes(self.tree(), LEVEL_COUNT as int)
                    && d == t,
                None => self.active().byte_size() + frozen_bytes(self.frozen()) + tree_bytes(self.tree(), LEVEL_COUNT as int) > u64::MAX,
            },
    {
        proof { use_type_invariant(self); }
        let frozen: usize = match &self.immutable {
            Some(m) => m.size(),
            None => 0,
        };
        proof { lemma_tree_bytes_mono(self.levels@, 0, LEVEL_COUNT as int); }
        let mut total: u64 = match (self.memtable.size() as u64).checked_add(frozen as u64) {
            Some(t) => t,
            None => return None,
        };
        let mut i: usize = 0;
        while i < self.levels.len()
            invariant
                i <= self.levels@.len(),
                self.levels@.len() == LEVEL_COUNT,
                total == self.memtable.byte_size() + frozen_bytes(self.immutable) + tree_bytes(self.levels@, i as int),
            decreases self.levels@.len() - i,
        {
            proof { lemma_tree_bytes_mono(self.levels@, i + 1, LEVEL_COUNT as int); }
            let l = self.levels[i].stats();
            total = match total.checked_add(l.total_size) {
                Some(t) => t,
                None => return None,
            };
            i = i + 1;
        }
        Some((total, total))
    }

    /// The manifest of the tree: every table, level after level, in each level's order.
    pub fn manifest_entries(&self) -> (r: Vec<ManifestEntry>)
        ensures
            manifest_views(r@) == tree_manifest(self.tree(), LEVEL_COUNT as int),
    {
        proof { use_type_invariant(self); }
        let ghost tree = self.tree();
        let mut out: Vec<ManifestEntry> = Vec::new();
        let mut i: usize = 0;
        assert(manifest_views(out@) =~= tree_manifest(tree, 0));
        while i < self.levels.len()
            invariant
                tree == self.tree(),
                tree.len() == LEVEL_COUNT,
                forall|q: int| 0 <= q < LEVEL_COUNT ==> (#[trigger] tree[q]).number() == q,
                i <= LEVEL_COUNT,
                manifest_views(out@) == tree_manifest(tree, i as int),
            decreases LEVEL_COUNT - i,
        {
            let lv = &self.levels[i];
            let n = lv.table_count();
            let mut j: usize = 0;
            let ghost base = tree_manifest(tree, i as int);
            assert(level_manifest(i, lv.tables().take(0)) =~= Seq::<ManifestEntryView>::empty());
            assert(manifest_views(out@) =~= base + level_manifest(i, lv.tables().take(0)));
            while j < n
                invariant
                    n == lv.tables().len(),
                    j <= n,
                    manifest_views(out@) == base + level_manifest(i, lv.tables().take(j as int)),
                decreases n - j,
            {
                let t = lv.table_at(j);
                let m = t.duplicate();
                let e = ManifestEntry { file_number: t.file_number, level: i, metadata: m };
                assert(level_manifest(i, lv.tables().take(j + 1)) =~= level_manifest(i, lv.tables().take(j as int)).push(e@));
                assert(manifest_views(out@.push(e)) =~= manifest_views(out@).push(e@));
                out.push(e);
                j = j + 1;
            }
            assert(lv.tables().take(n as int) =~= lv.tables());
            assert(tree[i as int].number() == i);
            i = i + 1;
        }
        out
    }

    /// Restores the tables a manifest lists: each entry's table is appended to its
    /// level, entries naming no level are skipped, and the file counter moves one
    /// past every restored file number that reaches it.
    pub fn restore_manifest(&mut self, entries: &Vec<ManifestEntry>)
        requires
            forall|i: int| 0 <= i < LEVEL_COUNT ==> level_bytes(
                #[trigger] old(self).tree()[i].tables() + level_entries(manifest_views(entries@), i),
            ) <= u64::MAX,
            forall|k: int| 0 <= k < entries@.len() ==> (#[trigger] entries@[k]).file_number < u64::MAX,
        ensures
            final(self).tree().len() == LEVEL_COUNT,
            forall|i: int| 0 <= i < LEVEL_COUNT ==> (#[trigger] final(self).tree()[i]).tables() == old(self).tree()[i].tables()
                + level_entries(manifest_views(entries@), i),
            final(self).file_counter() == restored_counter(old(self).file_counter(), manifest_views(entries@), LEVEL_COUNT as int),
            final(self).active() == old(self).active(),
            final(self).frozen() == old(self).frozen(),
            final(self).clock() == old(self).clock(),
            final(self).limit() == old(self).limit(),
            final(self).counters() == old(self).counters(),
    {
        proof { use_type_invariant(&*self); }
        let ghost es = manifest_views(entries@);
        let ghost old_tree = self.levels@;
        let ghost c0 = self.next_file_number;
        let ghost s0 = (self.memtable, self.immutable, self.next_commit_ts, self.memtable_limit, self.counters());
        let mut levels = fresh_levels();
        std::mem::swap(&mut levels, &mut self.levels);
        let mut k: usize = 0;
        assert forall|i: int| 0 <= i < LEVEL_COUNT implies (#[trigger] levels@[i]).tables() == old_tree[i].tables()
            + level_entries(es.take(0), i) by {
            assert(es.take(0) =~= Seq::<ManifestEntryView>::empty());
            assert(old_tree[i].tables() + Seq::<SSTableMetadataView>::empty() =~= old_tree[i].tables());
        }
        assert(es.take(0) =~= Seq::<ManifestEntryView>::empty());
        assert forall|i: int| 0 <= i < LEVEL_COUNT implies level_bytes(
            #[trigger] old_tree[i].tables() + level_entries(es, i),
        ) <= u64::MAX by {
            assert(old_tree[i] == old(self).tree()[i]);
        }
        while k < entries.len()
            invariant
                es == manifest_views(entries@),
                k <= entries@.len(),
                old_tree.len() == LEVEL_COUNT,
                levels@.len() == LEVEL_COUNT,
                forall|i: int| 0 <= i < LEVEL_COUNT ==> level_bytes(
                    #[trigger] old_tree[i].tables() + level_entries(es, i),
                ) <= u64::MAX,
                forall|q: int| 0 <= q < entries@.len() ==> (#[trigger] entries@[q]).file_number < u64::MAX,
                forall|i: int| 0 <= i < LEVEL_COUNT ==> (#[trigger] levels@[i]).number() == i,
                forall|i: int| 0 <= i < LEVEL_COUNT ==> (#[trigger] levels@[i]).tables() == old_tree[i].tables()
                    + level_entries(es.take(k as int), i),
                self.next_file_number == restored_counter(c0, es.take(k as int), LEVEL_COUNT as int),
                s0 == (self.memtable, self.immutable, self.next_commit_ts, self.memtable_limit, self.counters()),
                self.memtable.wf(),
                self.immutable matches Some(m) ==> m.wf(),
                self.levels@.len() == LEVEL_COUNT,
                forall|i: int| 0 <= i < LEVEL_COUNT ==> (#[trigger] self.levels@[i]).number() == i,
            decreases entries@.len() - k,
        {
            let e = &entries[k];
            proof {
                assert(es[k as int] == e@);
                assert forall|i: int| 0 <= i < LEVEL_COUNT implies level_entries(#[trigger] es.take(k + 1), i)
                    == if es[k as int].level == i {
                        level_entries(es.take(k as int), i).push(es[k as int].metadata)
                    } else {
                        level_entries(es.take(k as int), i)
                    } by {
                    lemma_level_entries_take(es, k as int, i);
                }
                assert(es.take(k + 1).drop_last() =~= es.take(k as int));
                assert(es.take(k + 1).last() == es[k as int]);
            }
            if e.level < levels.len() {
                let l = e.level;
                proof {
                    let li = l as int;
                    assert(es =~= es.take(k + 1) + es.skip(k + 1));
                    lemma_level_entries_concat(es.take(k + 1), es.skip(k + 1), li);
                    let a = old_tree[li].tables() + level_entries(es.take(k + 1), li);
                    assert(old_tree[li].tables() + level_entries(es, li) =~= a + level_entries(es.skip(k + 1), li));
                    crate::lsm::level::lemma_level_bytes_concat(a, level_entries(es.skip(k + 1), li));
                    crate::lsm::level::lemma_level_bytes_nonneg(level_entries(es.skip(k + 1), li));
                    assert(a =~= levels@[li].tables().push(e.metadata@));
                    assert(a.drop_last() =~= levels@[li].tables());
                }
                let mut lv = levels.remove(l);
                lv.add_sstable(e.metadata.duplicate());
                levels.insert(l, lv);
                if e.file_number >= self.next_file_number {
                    self.next_file_number = e.file_number + 1;
                }
            }
            k = k + 1;
        }
        assert(es.take(entries@.len() as int) =~= es);
        self.levels = levels;
    }

    /// The engine's statistics: memtable sizes, counters and each level's
    /// number, table count and size.
    pub fn stats(&self) -> (r: EngineStats)
        ensures
            r.memtable_size == self.active().byte_size(),
            r.immutable_memtable_size == (match self.frozen() {
                Some(m) => m.byte_size(),
                None => 0,
            }),
            (r.total_writes, r.total_reads, r.total_flushes, r.total_compactions) == self.counters(),
            r.levels@.len() == self.tree().len(),
            forall|i: int| 0 <= i < r.levels@.len() ==> {
                &&& (#[trigger] r.levels@[i]).level == self.tree()[i].number()
                &&& r.levels@[i].num_sstables == self.tree()[i].tables().len()
                &&& r.levels@[i].total_size == self.tree()[i].size()
            },
    {
        proof { use_type_invariant(self); }
        let mut levels: Vec<LevelStats> = Vec::new();
        let mut i: usize = 0;
        while i < self.levels.len()
            invariant
                i <= self.levels@.len(),
                levels@.len() == i,
                forall|j: int| 0 <= j < i ==> {
                    &&& (#[trigger] levels@[j]).level == self.levels@[j].number()
                    &&& levels@[j].num_sstables == self.levels@[j].tables().len()
                    &&& levels@[j].total_size == self.levels@[j].size()
                },
            decreases self.levels@.len() - i,
        {
            levels.push(self.levels[i].stats());
            i = i + 1;
        }
        let immutable_memtable_size = match &self.immutable {
            Some(m) => m.size(),
            None => 0,
        };
        EngineStats {
            memtable_size: self.memtable.size(),
            immutable_memtable_size,
            total_writes: self.total_writes,
            total_reads: self.total_reads,
            total_flushes: self.total_flushes,
            total_compactions: self.total_compactions,
            levels,
        }
    }
}

/// Entries whose keys `range` admits.
pub open spec fn range_pred(range: KeyRange) -> spec_fn(EntryView) -> bool {
    |e: EntryView| range.contains(e.key)
}

/// The sources a scan merges, newest first: the active memtable's entries within
/// the range, then the frozen memtable's, if any, then each table's.
pub open spec fn scan_sources(
    active: MemTable,
    frozen: Option<MemTable>,
    tables: Seq<Seq<EntryView>>,
    range: KeyRange,
) -> Seq<Seq<EntryView>> {
    let head = seq![active@.filter(range_pred(range))];
    let mems = match frozen {
        Some(m) => head.push(m@.filter(range_pred(range))),
        None => head,
    };
    mems + tables.map_values(|es: Seq<EntryView>| es.filter(range_pred(range)))
}

/// Whether the keys of `entries` never decrease, as `EngineState::scan` asks of
/// each table's entries.
pub fn keys_in_order(entries: &Vec<Entry>) -> (r: bool)
    ensures
        r == keys_nondecreasing(entry_views(entries@)),
{
    let ghost s = entry_views(entries@);
    if entries.len() == 0 {
        return true;
    }
    let mut i: usize = 1;
    while i < entries.len()
        invariant
            1 <= i <= entries@.len(),
            s == entry_views(entries@),
            keys_nondecreasing(s.take(i as int)),
        decreases entries@.len() - i,
    {
        assert(entries@[i - 1]@ == s[i - 1]);
        assert(entries@[i as int]@ == s[i as int]);
        if key_less(entries[i].key.as_slice(), entries[i - 1].key.as_slice()) {
            assert(!lex_le(s[i - 1].key, s[i as int].key)) by {
                crate::keyorder::lemma_lex_trichotomy(s[i as int].key, s[i - 1].key);
            }
            return false;
        }
        proof {
            crate::keyorder::lemma_lex_trichotomy(s[i as int].key, s[i - 1].key);
            assert forall|a: int, b: int| 0 <= a < b < i + 1 implies lex_le(#[trigger] s.take(i + 1)[a].key, #[trigger] s.take(i + 1)[b].key) by {
                if b == i {
                    if a < i - 1 {
                        assert(lex_le(s.take(i as int)[a].key, s.take(i as int)[i - 1].key));
                        crate::keyorder::lemma_lex_le_transitive(s[a].key, s[i - 1].key, s[i as int].key);
                    }
                } else {
                    assert(lex_le(s.take(i as int)[a].key, s.take(i as int)[b].key));
                }
            }
        }
        i = i + 1;
    }
    assert(s.take(i as int) =~= s);
    true
}

/// The entries of a table's `entries` whose keys `range` admits, in order.
fn table_entries_in_range(entries: &Vec<Entry>, range: &KeyRange) -> (r: Vec<Entry>)
    requires
        keys_nondecreasing(entry_views(entries@)),
    ensures
        entry_views(r@) == entry_views(entries@).filter(range_pred(*range)),
        keys_nondecreasing(entry_views(r@)),
{
    let ghost s = entry_views(entries@);
    let mut out: Vec<Entry> = Vec::new();
    let mut i: usize = 0;
    let ghost mut last: int = -1;
    while i < entries.len()
        invariant
            i <= entries@.len(),
            s == entry_views(entries@),
            keys_nondecreasing(s),
            entry_views(out@) == s.subrange(0, i as int).filter(range_pred(*range)),
            keys_nondecreasing(entry_views(out@)),
            -1 <= last < i,
            out@.len() > 0 ==> last >= 0 && entry_views(out@).last() == s[last],
        decreases entries@.len() - i,
    {
        let ghost before = s.subrange(0, i as int);
        assert(s.subrange(0, i + 1) =~= before.push(s[i as int]));
        proof {
            broadcast use Seq::lemma_filter_push;
        }
        assert(entries@[i as int]@ == s[i as int]);
        if key_in_range(entries[i].key.as_slice(), range) {
            let e = entries[i].duplicate();
            let ghost prev = entry_views(out@);
            out.push(e);
            proof {
                assert(entry_views(out@) =~= prev.push(s[i as int]));
                assert forall|a: int, b: int| 0 <= a < b < entry_views(out@).len() implies lex_le(
                    #[trigger] entry_views(out@)[a].key,
                    #[trigger] entry_views(out@)[b].key,
                ) by {
                    if b == prev.len() {
                        assert(lex_le(s[last].key, s[i as int].key));
                        if a < prev.len() - 1 {
                            crate::keyorder::lemma_lex_le_transitive(prev[a].key, prev[prev.len() - 1].key, s[i as int].key);
                        }
                    } else {
                        assert(entry_views(out@)[a] == prev[a]);
                        assert(entry_views(out@)[b] == prev[b]);
                    }
                }
                last = i as int;
            }
        }
        i = i + 1;
    }
    assert(s.subrange(0, i as int) =~= s);
    out
}

/// The entries of `m` whose keys `range` admits, in key order.
fn entries_in_range(m: &MemTable, range: &KeyRange) -> (r: Vec<Entry>)
    requires
        m.wf(),
    ensures
        entry_views(r@) == m@.filter(range_pred(*range)),
        keys_sorted(entry_views(r@)),
{
    let all = m.entries();
    let ghost s = entry_views(all@);
    let mut out: Vec<Entry> = Vec::new();
    let mut i: usize = 0;
    let ghost mut last: int = -1;
    while i < all.len()
        invariant
            i <= all@.len(),
            s == entry_views(all@),
            s == m@,
            keys_sorted(s),
            entry_views(out@) == s.subrange(0, i as int).filter(range_pred(*range)),
            keys_sorted(entry_views(out@)),
            -1 <= last < i,
            out@.len() > 0 ==> last >= 0 && entry_views(out@).last() == s[last],
        decreases all@.len() - i,
    {
        let ghost before = s.subrange(0, i as int);
        assert(s.subrange(0, i + 1) =~= before.push(s[i as int]));
        proof {
            broadcast use Seq::lemma_filter_push;
        }
        assert(all@[i as int]@ == s[i as int]);
        if key_in_range(all[i].key.as_slice(), range) {
            let e = all[i].duplicate();
            let ghost prev = entry_views(out@);
            out.push(e);
            proof {
                assert(entry_views(out@) =~= prev.push(s[i as int]));
                assert forall|a: int, b: int| 0 <= a < b < entry_views(out@).len() implies lex_lt(
                    #[trigger] entry_views(out@)[a].key,
                    #[trigger] entry_views(out@)[b].key,
                ) by {
                    if b == prev.len() {
                        assert(lex_lt(s[last].key, s[i as int].key));
                        if a < prev.len() - 1 {
                            crate::keyorder::lemma_lex_transitive(prev[a].key, prev[prev.len() - 1].key, s[i as int].key);
                        }
                    } else {
                        assert(entry_views(out@)[a] == prev[a]);
                        assert(entry_views(out@)[b] == prev[b]);
                    }
                }
                last = i as int;
            }
        }
        i = i + 1;
    }
    assert(s.subrange(0, i as int) =~= s);
    out
}

/// A thousand estimated keys per table of the first `n` levels.
pub open spec fn estimated_keys(levels: Seq<Level>, n: int) -> int
    decreases n,
{
    if n <= 0 { 0 } else { estimated_keys(levels, n - 1) + levels[n - 1].tables().len() * 1000 }
}

proof fn lemma_estimated_keys_mono(levels: Seq<Level>, a: int, b: int)
    requires
        0 <= a <= b,
    ensures
        estimated_keys(levels, a) <= estimated_keys(levels, b),
    decreases b,
{
    if a < b {
        lemma_estimated_keys_mono(levels, a, b - 1);
    }
}

/// Bytes of the first `n` levels.
pub open spec fn tree_bytes(levels: Seq<Level>, n: int) -> int
    decreases n,
{
    if n <= 0 { 0 } else { tree_bytes(levels, n - 1) + levels[n - 1].size() }
}

proof fn lemma_tree_bytes_mono(levels: Seq<Level>, a: int, b: int)
    requires
        0 <= a <= b,
    ensures
        tree_bytes(levels, a) <= tree_bytes(levels, b),
    decreases b,
{
    if a < b {
        lemma_tree_bytes_mono(levels, a, b - 1);
        crate::lsm::level::lemma_level_bytes_nonneg(levels[b - 1].tables());
    }
}

/// Bytes of the frozen memtable, if any.
pub open spec fn frozen_bytes(m: Option<MemTable>) -> int {
    match m {
        Some(t) => t.byte_size(),
        None => 0,
    }
}

/// The tables of each level.
pub open spec fn level_views(levels: Seq<Level>) -> Seq<Seq<SSTableMetadataView>> {
    levels.map_values(|l: Level| l.tables())
}

/// With every level capacity computable, the default strategy's scan of the
/// levels stays within `u64`.
proof fn lemma_scan_fits(lv: Seq<Seq<SSTableMetadataView>>, base: u64, level: int)
    requires
        lv.len() == LEVEL_COUNT,
        forall|j: int| 0 <= j < LEVEL_COUNT ==> level_bytes(#[trigger] lv[j]) <= u64::MAX,
        capacities_fit(LEVEL_COUNT as int, base as int),
        1 <= level,
    ensures
        default_strategy().scan_fits(lv, base, level),
    decreases LEVEL_COUNT - level,
{
    if level < LEVEL_COUNT {
        assert(capacity_fits(level, base as int));
        assert((level as usize as u32) as nat == level);
        lemma_scan_fits(lv, base, level + 1);
    }
}

/// Seven empty levels numbered from 0.
fn fresh_levels() -> (r: Vec<Level>)
    ensures
        r@.len() == LEVEL_COUNT,
        forall|j: int| 0 <= j < LEVEL_COUNT ==> (#[trigger] r@[j]).number() == j && r@[j].tables().len() == 0,
{
    let mut levels: Vec<Level> = Vec::new();
    let mut i: usize = 0;
    while i < LEVEL_COUNT
        invariant
            i <= LEVEL_COUNT,
            levels@.len() == i,
            forall|j: int| 0 <= j < i ==> (#[trigger] levels@[j]).number() == j && levels@[j].tables().len() == 0,
        decreases LEVEL_COUNT - i,
    {
        levels.push(Level::new(i));
        i = i + 1;
    }
    levels
}

/// The file numbers that binary searches find at levels `from` and deeper.
pub open spec fn deeper_candidates(levels: Seq<Level>, key: Seq<u8>, from: int) -> Seq<u64>
    decreases levels.len() - from,
{
    if from >= levels.len() || from < 0 {
        Seq::empty()
    } else {
        let here = match level_search(levels[from].tables(), key) {
            Some(i) => seq![levels[from].tables()[i].file_number],
            None => Seq::empty(),
        };
        here + deeper_candidates(levels, key, from + 1)
    }
}

/// A lookup after a write finds what was written: once a value (or a
/// tombstone) is written to `key`, the memtable's entry for `key` is that write,
/// and every other key keeps its entry.
pub proof fn lemma_write_then_lookup(c: Map<Seq<u8>, EntryView>, key: Seq<u8>, e: EntryView, other: Seq<u8>)
    requires
        e.key == key,
        other != key,
    ensures
        c.insert(key, e).contains_key(key),
        c.insert(key, e)[key] == e,
        c.insert(key, e).contains_key(other) == c.contains_key(other),
        c.contains_key(other) ==> c.insert(key, e)[other] == c[other],
{
}

/// Replaying a Put record as the engine logs it applies exactly that write:
/// the record's kind is recognised and its payload decodes to the key and
/// value written.
pub proof fn lemma_replay_restores_put(key: Seq<u8>, value: Seq<u8>)
    requires
        key.len() <= u32::MAX,
        value.len() <= u32::MAX,
    ensures
        WalRecordKind::from_code(WalRecordKind::Put.code()) == Some(WalRecordKind::Put),
        decode_put_spec(crate::lsm::wal_record::put_payload(key, value)) == Ok::<(Seq<u8>, Seq<u8>), Seq<char>>((key, value)),
{
    crate::lsm::wal_record::lemma_put_roundtrip(key, value, Seq::empty());
    assert(crate::lsm::wal_record::put_payload(key, value) + Seq::<u8>::empty() =~= crate::lsm::wal_record::put_payload(key, value));
}

/// Replaying a Delete record as the engine logs it applies exactly that
/// deletion.
pub proof fn lemma_replay_restores_delete(key: Seq<u8>)
    requires
        key.len() <= u32::MAX,
    ensures
        WalRecordKind::from_code(WalRecordKind::Delete.code()) == Some(WalRecordKind::Delete),
        decode_delete_spec(crate::lsm::wal_record::delete_payload(key)) == Ok::<Seq<u8>, Seq<char>>(key),
{
    crate::lsm::wal_record::lemma_delete_roundtrip(key, Seq::empty());
    assert(crate::lsm::wal_record::delete_payload(key) + Seq::<u8>::empty() =~= crate::lsm::wal_record::delete_payload(key));
}

/// What a binary search by key range finds among the tables at positions
/// `lo` to `hi` (excluded): it probes the middle table, moves left when the
/// key sorts before the table, right when after, and stops on a table whose
/// range covers the key.
pub open spec fn bsearch(s: Seq<SSTableMetadataView>, key: Seq<u8>, lo: int, hi: int) -> Option<int>
    decreases hi - lo,
{
    if lo >= hi || lo < 0 || hi > s.len() {
        None
    } else {
        let mid = lo + (hi - lo) / 2;
        if lex_lt(key, s[mid].min_key) {
            bsearch(s, key, lo, mid)
        } else if lex_lt(s[mid].max_key, key) {
            bsearch(s, key, mid + 1, hi)
        } else {
            Some(mid)
        }
    }
}

/// What the binary search of a whole level finds.
pub open spec fn level_search(s: Seq<SSTableMetadataView>, key: Seq<u8>) -> Option<int> {
    bsearch(s, key, 0, s.len() as int)
}

/// A table the search finds covers the key.
pub proof fn lemma_bsearch_sound(s: Seq<SSTableMetadataView>, key: Seq<u8>, lo: int, hi: int)
    ensures
        bsearch(s, key, lo, hi) matches Some(i) ==> lo <= i < hi && covers(s[i], key),
    decreases hi - lo,
{
    if lo >= hi || lo < 0 || hi > s.len() {
    } else {
        let mid = lo + (hi - lo) / 2;
        if lex_lt(key, s[mid].min_key) {
            lemma_bsearch_sound(s, key, lo, mid);
        } else if lex_lt(s[mid].max_key, key) {
            lemma_bsearch_sound(s, key, mid + 1, hi);
        } else {
            crate::keyorder::lemma_lex_trichotomy(key, s[mid].min_key);
            crate::keyorder::lemma_lex_trichotomy(key, s[mid].max_key);
        }
    }
}

/// In a level whose tables are sorted and disjoint, the search finds a table
/// whenever one between `lo` and `hi` covers the key.
pub proof fn lemma_bsearch_complete(s: Seq<SSTableMetadataView>, key: Seq<u8>, lo: int, hi: int, t: int)
    requires
        disjoint_sorted(s),
        0 <= lo <= t < hi <= s.len(),
        covers(s[t], key),
    ensures
        bsearch(s, key, lo, hi) is Some,
    decreases hi - lo,
{
    let mid = lo + (hi - lo) / 2;
    if lex_lt(key, s[mid].min_key) {
        if t >= mid {
            if t > mid {
                assert(lex_lt(s[mid].max_key, s[t].min_key));
                assert(lex_le(s[mid].min_key, s[mid].max_key));
                crate::keyorder::lemma_lex_le_transitive(s[mid].min_key, s[mid].max_key, s[t].min_key);
                crate::keyorder::lemma_lex_le_transitive(s[mid].min_key, s[t].min_key, key);
            }
            crate::keyorder::lemma_lex_trichotomy(key, s[mid].min_key);
            crate::keyorder::lemma_lex_irreflexive(key);
            if lex_lt(s[mid].min_key, key) {
                crate::keyorder::lemma_lex_transitive(key, s[mid].min_key, key);
            }
        }
        lemma_bsearch_complete(s, key, lo, mid, t);
    } else if lex_lt(s[mid].max_key, key) {
        if t <= mid {
            if t < mid {
                assert(lex_lt(s[t].max_key, s[mid].min_key));
                assert(lex_le(s[mid].min_key, s[mid].max_key));
                crate::keyorder::lemma_lex_le_transitive(key, s[t].max_key, s[mid].min_key);
                crate::keyorder::lemma_lex_le_transitive(key, s[mid].min_key, s[mid].max_key);
            }
            crate::keyorder::lemma_lex_trichotomy(key, s[mid].max_key);
            crate::keyorder::lemma_lex_irreflexive(key);
            if lex_lt(key, s[mid].max_key) {
                crate::keyorder::lemma_lex_transitive(key, s[mid].max_key, key);
            }
        }
        lemma_bsearch_complete(s, key, mid + 1, hi, t);
    }
}

/// Binary search of a level's tables by key range.
pub fn search_level(level: &Level, key: &[u8]) -> (r: Option<usize>)
    ensures
        match r {
            Some(i) => level_search(level.tables(), key@) == Some(i as int) && i < level.tables().len(),
            None => level_search(level.tables(), key@) is None,
        },
{
    let ghost s = level.tables();
    let mut lo: usize = 0;
    let mut hi: usize = level.table_count();
    while lo < hi
        invariant
            0 <= lo <= hi <= s.len(),
            s == level.tables(),
            bsearch(s, key@, lo as int, hi as int) == level_search(s, key@),
        decreases hi - lo,
    {
        let mid = lo + (hi - lo) / 2;
        let t = level.table_at(mid);
        if key_less(key, t.min_key.as_slice()) {
            hi = mid;
        } else if key_less(t.max_key.as_slice(), key) {
            lo = mid + 1;
        } else {
            proof { lemma_bsearch_sound(s, key@, 0, s.len() as int); }
            return Some(mid);
        }
    }
    None
}

} // verus!
