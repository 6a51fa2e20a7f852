//! Iteration over an LMDB database: a range scan read in chunks through
//! short-lived cursors, and an iterator over entries merged in memory from a
//! transaction's writes and the stored data.
use vstd::prelude::*;
use crate::kvt::error::KeyValueError;
use crate::kvt::memory::{MemoryKeyValueIterator, pair_views, lower_bound};
use crate::kvt::types::{KeyBound, KeyBoundView, KeyRange, key_in_range};
use crate::lsm::memtable::copy_bytes;

verus! {

/// Most entries read through one cursor.
pub const CHUNK_SIZE: usize = 1000;

/// Where a chunk's cursor starts.
#[derive(Debug, Clone)]
pub enum ChunkStart {
    /// At the first key of the database.
    First,
    /// At the first key at or after this one.
    From(Vec<u8>),
}

/// How to read the next chunk: where the cursor starts and how many entries
/// the chunk holds at most.
#[derive(Debug, Clone)]
pub struct ChunkPlan {
    pub start: ChunkStart,
    pub size: usize,
}

/// What the iterator needs to go on.
#[derive(Debug)]
pub enum ChunkStep {
    /// The next entry.
    Entry((Vec<u8>, Vec<u8>)),
    /// The current chunk is used up: a new chunk must be read.
    NeedChunk,
    /// Iteration is over.
    Done,
}

/// The state of a range scan read in chunks: the range, the current chunk and
/// the position in it, the last key read, whether the scan has finished, and
/// how many entries it returned.
pub struct ChunkedScan {
    range: KeyRange,
    chunk: Vec<(Vec<u8>, Vec<u8>)>,
    chunk_position: usize,
    last_key: Option<Vec<u8>>,
    finished: bool,
    count: usize,
    skip_key: Option<Vec<u8>>,
}

/// The key of an optional last key, by view.
pub open spec fn opt_view(k: Option<Vec<u8>>) -> Option<Seq<u8>> {
    match k {
        Some(v) => Some(v@),
        None => None,
    }
}

impl ChunkedScan {
    /// The range scanned.
    pub closed spec fn scan_range(&self) -> KeyRange {
        self.range
    }

    /// The entries of the current chunk, in the order they are returned.
    pub closed spec fn current(&self) -> Seq<(Seq<u8>, Seq<u8>)> {
        pair_views(self.chunk@)
    }

    /// Position in the current chunk.
    pub closed spec fn at(&self) -> int {
        self.chunk_position as int
    }

    /// The last key read from the database, if any.
    pub closed spec fn last(&self) -> Option<Seq<u8>> {
        opt_view(self.last_key)
    }

    /// Whether the scan has finished.
    pub closed spec fn done(&self) -> bool {
        self.finished
    }

    /// Number of entries returned.
    pub closed spec fn returned(&self) -> int {
        self.count as int
    }

    /// The key that the first entry of the chunk being read is passed over
    /// for, if it has that key: the key already returned, or an excluded start.
    pub closed spec fn skipping(&self) -> Option<Seq<u8>> {
        opt_view(self.skip_key)
    }

    /// Whether the limit of the range has been reached.
    pub open spec fn limit_reached(&self) -> bool {
        self.scan_range().limit matches Some(l) && self.returned() >= l
    }

    /// A scan of `range` that has read nothing yet.
    pub fn new(range: KeyRange) -> (r: Self)
        ensures
            r.scan_range() == range,
            r.current().len() == 0,
            r.at() == 0,
            r.last() is None,
            !r.done(),
            r.returned() == 0,
    {
        let r = ChunkedScan {
            range,
            chunk: Vec::new(),
            chunk_position: 0,
            last_key: None,
            finished: false,
            count: 0,
            skip_key: None,
        };
        assert(pair_views(r.chunk@) =~= Seq::<(Seq<u8>, Seq<u8>)>::empty());
        r
    }

    /// Whether the limit of the range has been reached.
    pub fn at_limit(&self) -> (r: bool)
        ensures
            r == self.limit_reached(),
    {
        match self.range.limit {
            Some(limit) => self.count >= limit,
            None => false,
        }
    }

    /// Starts reading a chunk, unless the scan is over: empties the current
    /// chunk and says where the cursor starts (after the last key read, else
    /// at the range's start) and how many entries to read: for a forward scan
    /// what the limit leaves, at most a thousand; for a reverse scan the rest
    /// of the range, so that reversing the chunk reverses the whole scan. The
    /// first entry read is passed over when it is the last key read or the
    /// range's excluded start.
    pub fn begin_chunk(&mut self) -> (r: Option<ChunkPlan>)
        ensures
            final(self).scan_range() == old(self).scan_range(),
            final(self).last() == old(self).last(),
            final(self).done() == old(self).done(),
            final(self).returned() == old(self).returned(),
            (old(self).done() || old(self).limit_reached()) ==> r is None && final(self).current()
                == old(self).current() && final(self).at() == old(self).at() && final(self).skipping() == old(self).skipping(),
            !(old(self).done() || old(self).limit_reached()) ==> (r matches Some(plan) && {
                &&& final(self).current().len() == 0
                &&& final(self).at() == 0
                &&& plan.size == (if old(self).scan_range().reverse {
                    usize::MAX as int
                } else {
                    match old(self).scan_range().limit {
                        Some(l) => if l - old(self).returned() < CHUNK_SIZE { l - old(self).returned() } else { CHUNK_SIZE as int },
                        None => CHUNK_SIZE as int,
                    }
                })
                &&& match old(self).last() {
                    Some(k) => plan.start matches ChunkStart::From(s) && s@ == k && final(self).skipping() == Some(k),
                    None => match old(self).scan_range().start@ {
                        KeyBoundView::Included(s) => plan.start matches ChunkStart::From(p) && p@ == s && final(self).skipping() is None,
                        KeyBoundView::Excluded(s) => plan.start matches ChunkStart::From(p) && p@ == s && final(self).skipping() == Some(s),
                        KeyBoundView::Unbounded => plan.start is First && final(self).skipping() is None,
                    },
                }
            }),
    {
        if self.finished || self.at_limit() {
            return None;
        }
        let remaining = match self.range.limit {
            Some(limit) => limit - self.count,
            None => CHUNK_SIZE,
        };
        let size = if self.range.reverse {
            usize::MAX
        } else if remaining < CHUNK_SIZE {
            remaining
        } else {
            CHUNK_SIZE
        };
        self.chunk.clear();
        self.chunk_position = 0;
        assert(pair_views(self.chunk@) =~= Seq::<(Seq<u8>, Seq<u8>)>::empty());
        let start = match &self.last_key {
            Some(k) => {
                self.skip_key = Some(copy_bytes(k));
                ChunkStart::From(copy_bytes(k))
            },
            None => match &self.range.start {
                KeyBound::Included(s) => {
                    self.skip_key = None;
                    ChunkStart::From(copy_bytes(s))
                },
                KeyBound::Excluded(s) => {
                    self.skip_key = Some(copy_bytes(s));
                    ChunkStart::From(copy_bytes(s))
                },
                KeyBound::Unbounded => {
                    self.skip_key = None;
                    ChunkStart::First
                },
            },
        };
        Some(ChunkPlan { start, size })
    }

    /// Takes one entry read by the cursor into the chunk being read, and says
    /// whether to read on: a first entry with the key to pass over is passed
    /// over (any other first entry is taken as usual); a key outside
    /// the range ends the scan; otherwise the entry joins the chunk and
    /// becomes the last key read, and reading goes on until the chunk holds
    /// `size` entries.
    pub fn accept(&mut self, size: usize, key: &[u8], value: &[u8]) -> (r: bool)
        ensures
            final(self).scan_range() == old(self).scan_range(),
            final(self).at() == old(self).at(),
            final(self).returned() == old(self).returned(),
            final(self).skipping() is None,
            old(self).skipping() == Some(key@) ==> r && final(self).current() == old(self).current() && final(self).last()
                == old(self).last() && final(self).done() == old(self).done(),
            old(self).skipping() != Some(key@) && !old(self).scan_range().contains(key@) ==> !r && final(self).done()
                && final(self).current() == old(self).current() && final(self).last() == old(self).last(),
            old(self).skipping() != Some(key@) && old(self).scan_range().contains(key@) ==> {
                &&& final(self).current() == old(self).current().push((key@, value@))
                &&& final(self).last() == Some(key@)
                &&& final(self).done() == old(self).done()
                &&& r == (final(self).current().len() < size)
            },
    {
        let skip = match &self.skip_key {
            Some(s) => crate::keyorder::key_eq(s.as_slice(), key),
            None => false,
        };
        self.skip_key = None;
        if skip {
            return true;
        }
        if !key_in_range(key, &self.range) {
            self.finished = true;
            return false;
        }
        let k = vstd::slice::slice_to_vec(key);
        self.chunk.push((k, vstd::slice::slice_to_vec(value)));
        assert(pair_views(self.chunk@) =~= pair_views(old(self).chunk@).push((key@, value@)));
        self.last_key = Some(vstd::slice::slice_to_vec(key));
        self.chunk.len() < size
    }

    /// Ends reading a chunk: an empty chunk ends the scan, and a reverse scan
    /// returns the chunk's entries in reverse order.
    pub fn end_chunk(&mut self)
        ensures
            final(self).scan_range() == old(self).scan_range(),
            final(self).at() == old(self).at(),
            final(self).returned() == old(self).returned(),
            final(self).last() == old(self).last(),
            final(self).done() == (old(self).done() || old(self).current().len() == 0),
            final(self).current() == (if old(self).scan_range().reverse {
                old(self).current().reverse()
            } else {
                old(self).current()
            }),
    {
        if self.chunk.len() == 0 {
            self.finished = true;
        }
        if self.range.reverse {
            let mut rev: Vec<(Vec<u8>, Vec<u8>)> = Vec::new();
            let mut i: usize = self.chunk.len();
            let ghost c = pair_views(self.chunk@);
            while i > 0
                invariant
                    i <= self.chunk@.len(),
                    c == pair_views(self.chunk@),
                    pair_views(rev@) == c.subrange(i as int, c.len() as int).reverse(),
                decreases i,
            {
                let (k, v) = &self.chunk[i - 1];
                let ghost before = rev@;
                rev.push((copy_bytes(k), copy_bytes(v)));
                proof {
                    assert(pair_views(rev@) =~= pair_views(before).push(c[i - 1]));
                    assert(c.subrange(i - 1, c.len() as int).reverse() =~= c.subrange(i as int, c.len() as int).reverse().push(c[i - 1]));
                }
                i = i - 1;
            }
            assert(c.subrange(0, c.len() as int) =~= c);
            self.chunk = rev;
        }
    }

    /// The next entry of the scan, if the limit is not reached and the current
    /// chunk still holds one; else whether a new chunk is needed or the scan is
    /// over.
    pub fn next_entry(&mut self) -> (r: ChunkStep)
        requires
            old(self).returned() < usize::MAX,
        ensures
            final(self).scan_range() == old(self).scan_range(),
            final(self).current() == old(self).current(),
            final(self).last() == old(self).last(),
            final(self).done() == old(self).done(),
            final(self).skipping() == old(self).skipping(),
            old(self).limit_reached() ==> r is Done && final(self).at() == old(self).at() && final(self).returned()
                == old(self).returned(),
            !old(self).limit_reached() && old(self).at() < old(self).current().len() ==> (r matches ChunkStep::Entry(p)
                && (p.0@, p.1@) == old(self).current()[old(self).at()] && final(self).at() == old(self).at() + 1
                && final(self).returned() == old(self).returned() + 1),
            !old(self).limit_reached() && old(self).at() >= old(self).current().len() ==> final(self).at() == old(self).at()
                && final(self).returned() == old(self).returned() && if old(self).done() {
                r is Done
            } else {
                r is NeedChunk
            },
    {
        if self.at_limit() {
            return ChunkStep::Done;
        }
        if self.chunk_position < self.chunk.len() {
            let (k, v) = &self.chunk[self.chunk_position];
            let entry = (copy_bytes(k), copy_bytes(v));
            self.chunk_position = self.chunk_position + 1;
            self.count = self.count + 1;
            return ChunkStep::Entry(entry);
        }
        if self.finished || self.at_limit() {
            ChunkStep::Done
        } else {
            ChunkStep::NeedChunk
        }
    }

    /// Moves the scan to `key`: the chunk is emptied, the count restarts, and
    /// the next chunk is read from `key` on, past the key itself.
    pub fn seek(&mut self, key: &[u8])
        ensures
            final(self).scan_range() == old(self).scan_range(),
            final(self).current().len() == 0,
            final(self).at() == 0,
            final(self).last() == Some(key@),
            !final(self).done(),
            final(self).returned() == 0,
    {
        self.chunk.clear();
        self.chunk_position = 0;
        assert(pair_views(self.chunk@) =~= Seq::<(Seq<u8>, Seq<u8>)>::empty());
        self.last_key = Some(vstd::slice::slice_to_vec(key));
        self.finished = false;
        self.count = 0;
    }

    /// The last key read from the database, if any.
    pub fn position(&self) -> (r: Option<Vec<u8>>)
        ensures
            opt_view(r) == self.last(),
    {
        match &self.last_key {
            Some(k) => Some(copy_bytes(k)),
            None => None,
        }
    }

    /// Whether entries may remain: the scan has not finished and the limit is
    /// not reached.
    pub fn valid(&self) -> (r: bool)
        ensures
            r == (!self.done() && !self.limit_reached()),
    {
        !self.finished && !self.at_limit()
    }
}

/// Walks a list of entries in order.
pub struct LMDBMemoryIterator {
    inner: MemoryKeyValueIterator,
}

impl LMDBMemoryIterator {
    /// The entries walked.
    pub closed spec fn entries(&self) -> Seq<(Seq<u8>, Seq<u8>)> {
        self.inner.items()
    }

    /// The position of the next entry.
    pub closed spec fn position_index(&self) -> int {
        self.inner.index()
    }

    /// An iterator at the first of `entries`.
    pub fn new(entries: Vec<(Vec<u8>, Vec<u8>)>) -> (r: Self)
        ensures
            r.entries() == pair_views(entries@),
            r.position_index() == 0,
    {
        LMDBMemoryIterator { inner: MemoryKeyValueIterator::new(entries) }
    }

    /// The entry at the position, moving past it; `None` at the end.
    pub fn next_entry(&mut self) -> (r: Option<(Vec<u8>, Vec<u8>)>)
        ensures
            final(self).entries() == old(self).entries(),
            old(self).position_index() < old(self).entries().len() ==> {
                &&& r matches Some(p) && (p.0@, p.1@) == old(self).entries()[old(self).position_index()]
                &&& final(self).position_index() == old(self).position_index() + 1
            },
            old(self).position_index() >= old(self).entries().len() ==> r is None
                && final(self).position_index() == old(self).position_index(),
    {
        self.inner.next_entry()
    }

    /// Moves to the first entry whose key is at or after `key`, or to the end.
    pub fn seek(&mut self, key: &[u8]) -> (r: Result<(), KeyValueError>)
        ensures
            r is Ok,
            final(self).entries() == old(self).entries(),
            final(self).position_index() == lower_bound(old(self).entries(), key@),
    {
        self.inner.seek(key)
    }

    /// The key at the position, `None` at the end.
    pub fn position(&self) -> (r: Option<Vec<u8>>)
        ensures
            self.position_index() < self.entries().len() ==> (r matches Some(k) && k@
                == self.entries()[self.position_index()].0),
            self.position_index() >= self.entries().len() ==> r is None,
    {
        self.inner.position()
    }

    /// Whether the position holds an entry.
    pub fn valid(&self) -> (r: bool)
        ensures
            r == (self.position_index() < self.entries().len()),
    {
        self.inner.valid()
    }
}

} // verus!
