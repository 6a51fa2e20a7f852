//! Operation counters of an LSM tree: writes, reads, flushes, compactions,
//! per-level sizes and the transaction watermark.
//!
//! Counters wrap around at `u64::MAX`, as machine counters do; latencies are
//! kept as sums of nanoseconds, so that an average is a quotient of two
//! counters. Rates and amplification factors are floating-point quotients of
//! these counters and are computed by the caller.
use vstd::prelude::*;
use std::time::Duration;
use crate::lsm::cache::wrap_add;

verus! {

/// Number of levels whose size and file count are tracked.
pub const TRACKED_LEVELS: usize = 7;

/// The number of nanoseconds that `Duration::as_nanos` reports for a duration.
pub uninterp spec fn nanos_of(d: Duration) -> u128;

/// Calls `Duration::as_nanos`: the whole duration in nanoseconds.
#[verifier::external_body]
pub(crate) fn duration_nanos(d: &Duration) -> (n: u128)
    ensures
        n == nanos_of(*d),
{
    d.as_nanos()
}

/// Calls `Duration::from_nanos`, whose result reports `n` nanoseconds back
/// through `Duration::as_nanos`.
#[verifier::external_body]
fn duration_from_nanos(n: u64) -> (d: Duration)
    ensures
        nanos_of(d) == n,
{
    Duration::from_nanos(n)
}

#[verifier::external_type_specification]
#[verifier::external_body]
pub struct ExSystemTime(std::time::SystemTime);

/// Calls `SystemTime::now`: the system clock's current time. Nothing is stated
/// of the value, which depends on the time of the call.
#[verifier::external_body]
pub(crate) fn system_now() -> std::time::SystemTime {
    std::time::SystemTime::now()
}

/// Calls `SystemTime::duration_since` with the UNIX epoch: the time elapsed
/// since the epoch, or `None` when `t` is earlier. Nothing is stated of the
/// value.
#[verifier::external_body]
pub(crate) fn since_epoch(t: &std::time::SystemTime) -> Option<Duration> {
    t.duration_since(std::time::UNIX_EPOCH).ok()
}

/// Calls `Duration::as_secs`: the whole seconds of `d`.
#[verifier::external_body]
pub(crate) fn whole_seconds(d: &Duration) -> (s: u64)
    ensures
        s == nanos_of(*d) / 1_000_000_000,
{
    d.as_secs()
}

/// Whole seconds of the time elapsed since the UNIX epoch, 0 where the clock
/// stood before the epoch (`None`).
pub fn epoch_seconds(elapsed: Option<Duration>) -> (r: u64)
    ensures
        r == match elapsed {
            Some(d) => nanos_of(d) / 1_000_000_000,
            None => 0,
        },
{
    match elapsed {
        Some(d) => whole_seconds(&d),
        None => 0,
    }
}

/// Seconds since the UNIX epoch by the system clock, 0 when the clock stands
/// before the epoch. Nothing is stated of the value, which is the time of the
/// call; `epoch_seconds` states how it follows from the clock's reading.
pub(crate) fn current_timestamp() -> u64 {
    let now = system_now();
    epoch_seconds(since_epoch(&now))
}

/// A duration's nanoseconds as a 64-bit counter increment (truncated).
pub open spec fn nanos_u64(d: Duration) -> u64 {
    nanos_of(d) as u64
}

/// The average of `count` samples summing to `sum`, 0 when there are none.
pub open spec fn average(sum: u64, count: u64) -> u64 {
    if count == 0 { 0 } else { (sum / count) as u64 }
}

/// What a Bloom filter said about a key, against what was found.
#[derive(Debug, Clone, Copy, PartialEq, Eq, Structural)]
pub enum BloomFilterResult {
    /// The filter admitted the key, and it exists.
    TruePositive,
    /// The filter admitted the key, and it does not exist.
    FalsePositive,
    /// The filter rejected the key, and it does not exist.
    TrueNegative,
}

/// Counters of an LSM tree.
pub struct LSMMetrics {
    pub total_writes: u64,
    pub total_write_bytes: u64,
    pub write_latency_sum_ns: u64,
    pub total_reads: u64,
    pub total_read_bytes: u64,
    pub read_latency_sum_ns: u64,
    pub memtable_hits: u64,
    pub memtable_size: usize,
    pub sstable_reads: u64,
    pub sstable_hits: u64,
    pub bloom_filter_checks: u64,
    pub bloom_filter_true_positives: u64,
    pub bloom_filter_false_positives: u64,
    pub block_cache_hits: u64,
    pub block_cache_misses: u64,
    pub total_flushes: u64,
    pub flush_duration_sum_ns: u64,
    pub bytes_flushed: u64,
    pub total_compactions: u64,
    pub compaction_duration_sum_ns: u64,
    pub bytes_compacted_in: u64,
    pub bytes_compacted_out: u64,
    pub level_sizes: [u64; 7],
    pub level_file_counts: [usize; 7],
    pub creation_time: u64,
    pub last_write_time: u64,
    pub last_read_time: u64,
    pub last_flush_time: u64,
    pub last_compaction_time: u64,
    pub total_sstable_reads_for_gets: u64,
    pub active_transactions: usize,
    pub min_active_snapshot_seq: i64,
}

impl LSMMetrics {
    /// All counters at zero, the creation time at `now`, and no transaction
    /// active (the watermark at `i64::MAX`).
    pub open spec fn fresh(now: u64) -> LSMMetrics {
        LSMMetrics {
            total_writes: 0,
            total_write_bytes: 0,
            write_latency_sum_ns: 0,
            total_reads: 0,
            total_read_bytes: 0,
            read_latency_sum_ns: 0,
            memtable_hits: 0,
            memtable_size: 0,
            sstable_reads: 0,
            sstable_hits: 0,
            bloom_filter_checks: 0,
            bloom_filter_true_positives: 0,
            bloom_filter_false_positives: 0,
            block_cache_hits: 0,
            block_cache_misses: 0,
            total_flushes: 0,
            flush_duration_sum_ns: 0,
            bytes_flushed: 0,
            total_compactions: 0,
            compaction_duration_sum_ns: 0,
            bytes_compacted_in: 0,
            bytes_compacted_out: 0,
            level_sizes: [0, 0, 0, 0, 0, 0, 0],
            level_file_counts: [0, 0, 0, 0, 0, 0, 0],
            creation_time: now,
            last_write_time: 0,
            last_read_time: 0,
            last_flush_time: 0,
            last_compaction_time: 0,
            total_sstable_reads_for_gets: 0,
            active_transactions: 0,
            min_active_snapshot_seq: i64::MAX,
        }
    }

    /// Fresh counters created at the current time.
    pub fn new() -> (r: Self)
        ensures
            r == Self::fresh(r.creation_time),
    {
        let now = current_timestamp();
        Self::created_at(now)
    }

    /// Fresh counters created at `now`.
    pub fn created_at(now: u64) -> (r: Self)
        ensures
            r == Self::fresh(now),
    {
        LSMMetrics {
            total_writes: 0,
            total_write_bytes: 0,
            write_latency_sum_ns: 0,
            total_reads: 0,
            total_read_bytes: 0,
            read_latency_sum_ns: 0,
            memtable_hits: 0,
            memtable_size: 0,
            sstable_reads: 0,
            sstable_hits: 0,
            bloom_filter_checks: 0,
            bloom_filter_true_positives: 0,
            bloom_filter_false_positives: 0,
            block_cache_hits: 0,
            block_cache_misses: 0,
            total_flushes: 0,
            flush_duration_sum_ns: 0,
            bytes_flushed: 0,
            total_compactions: 0,
            compaction_duration_sum_ns: 0,
            bytes_compacted_in: 0,
            bytes_compacted_out: 0,
            level_sizes: [0, 0, 0, 0, 0, 0, 0],
            level_file_counts: [0, 0, 0, 0, 0, 0, 0],
            creation_time: now,
            last_write_time: 0,
            last_read_time: 0,
            last_flush_time: 0,
            last_compaction_time: 0,
            total_sstable_reads_for_gets: 0,
            active_transactions: 0,
            min_active_snapshot_seq: i64::MAX,
        }
    }

    /// Counts one write of `bytes` bytes that took `duration`, and stamps the
    /// time of the last write.
    pub fn record_write(&mut self, bytes: usize, duration: Duration)
        ensures
            *final(self) == (LSMMetrics {
                total_writes: wrap_add(old(self).total_writes, 1),
                total_write_bytes: wrap_add(old(self).total_write_bytes, bytes as nat),
                write_latency_sum_ns: wrap_add(old(self).write_latency_sum_ns, nanos_u64(duration) as nat),
                last_write_time: final(self).last_write_time,
                ..*old(self)
            }),
    {
        let nanos = duration_nanos(&duration);
        self.total_writes = self.total_writes.wrapping_add(1);
        self.total_write_bytes = self.total_write_bytes.wrapping_add(bytes as u64);
        self.write_latency_sum_ns = self.write_latency_sum_ns.wrapping_add(nanos as u64);
        self.last_write_time = current_timestamp();
    }

    /// Number of writes counted.
    pub fn total_writes(&self) -> (r: u64)
        ensures
            r == self.total_writes,
    {
        self.total_writes
    }

    /// Mean latency of the writes counted; zero when there were none.
    pub fn avg_write_latency(&self) -> (r: Duration)
        ensures
            nanos_of(r) == average(self.write_latency_sum_ns, self.total_writes),
    {
        if self.total_writes == 0 {
            return duration_from_nanos(0);
        }
        duration_from_nanos(self.write_latency_sum_ns / self.total_writes)
    }

    /// Counts one read of `bytes` bytes that took `duration`, and stamps the
    /// time of the last read.
    pub fn record_read(&mut self, bytes: usize, duration: Duration)
        ensures
            *final(self) == (LSMMetrics {
                total_reads: wrap_add(old(self).total_reads, 1),
                total_read_bytes: wrap_add(old(self).total_read_bytes, bytes as nat),
                read_latency_sum_ns: wrap_add(old(self).read_latency_sum_ns, nanos_u64(duration) as nat),
                last_read_time: final(self).last_read_time,
                ..*old(self)
            }),
    {
        let nanos = duration_nanos(&duration);
        self.total_reads = self.total_reads.wrapping_add(1);
        self.total_read_bytes = self.total_read_bytes.wrapping_add(bytes as u64);
        self.read_latency_sum_ns = self.read_latency_sum_ns.wrapping_add(nanos as u64);
        self.last_read_time = current_timestamp();
    }

    /// Adds the number of SSTables that one lookup consulted.
    pub fn record_sstable_reads_for_get(&mut self, count: u64)
        ensures
            *final(self) == (LSMMetrics {
                total_sstable_reads_for_gets: wrap_add(old(self).total_sstable_reads_for_gets, count as nat),
                ..*old(self)
            }),
    {
        self.total_sstable_reads_for_gets = self.total_sstable_reads_for_gets.wrapping_add(count);
    }

    /// Number of reads counted.
    pub fn total_reads(&self) -> (r: u64)
        ensures
            r == self.total_reads,
    {
        self.total_reads
    }

    /// Mean latency of the reads counted; zero when there were none.
    pub fn avg_read_latency(&self) -> (r: Duration)
        ensures
            nanos_of(r) == average(self.read_latency_sum_ns, self.total_reads),
    {
        if self.total_reads == 0 {
            return duration_from_nanos(0);
        }
        duration_from_nanos(self.read_latency_sum_ns / self.total_reads)
    }

    /// Counts a read answered by the memtable.
    pub fn record_memtable_hit(&mut self)
        ensures
            *final(self) == (LSMMetrics { memtable_hits: wrap_add(old(self).memtable_hits, 1), ..*old(self) }),
    {
        self.memtable_hits = self.memtable_hits.wrapping_add(1);
    }

    /// Records the memtable's current size in bytes.
    pub fn set_memtable_size(&mut self, size: usize)
        ensures
            *final(self) == (LSMMetrics { memtable_size: size, ..*old(self) }),
    {
        self.memtable_size = size;
    }

    /// Counts an SSTable consulted by a read, and whether it held the key.
    pub fn record_sstable_read(&mut self, hit: bool)
        ensures
            *final(self) == (LSMMetrics {
                sstable_reads: wrap_add(old(self).sstable_reads, 1),
                sstable_hits: if hit { wrap_add(old(self).sstable_hits, 1) } else { old(self).sstable_hits },
                ..*old(self)
            }),
    {
        self.sstable_reads = self.sstable_reads.wrapping_add(1);
        if hit {
            self.sstable_hits = self.sstable_hits.wrapping_add(1);
        }
    }

    /// Counts a Bloom filter check by its outcome.
    pub fn record_bloom_filter_check(&mut self, result: BloomFilterResult)
        ensures
            *final(self) == (LSMMetrics {
                bloom_filter_checks: wrap_add(old(self).bloom_filter_checks, 1),
                bloom_filter_true_positives: if result == BloomFilterResult::TruePositive {
                    wrap_add(old(self).bloom_filter_true_positives, 1)
                } else {
                    old(self).bloom_filter_true_positives
                },
                bloom_filter_false_positives: if result == BloomFilterResult::FalsePositive {
                    wrap_add(old(self).bloom_filter_false_positives, 1)
                } else {
                    old(self).bloom_filter_false_positives
                },
                ..*old(self)
            }),
    {
        self.bloom_filter_checks = self.bloom_filter_checks.wrapping_add(1);
        match result {
            BloomFilterResult::TruePositive => {
                self.bloom_filter_true_positives = self.bloom_filter_true_positives.wrapping_add(1);
            },
            BloomFilterResult::FalsePositive => {
                self.bloom_filter_false_positives = self.bloom_filter_false_positives.wrapping_add(1);
            },
            BloomFilterResult::TrueNegative => {},
        }
    }

    /// Counts a block cache lookup as a hit or a miss.
    pub fn record_block_cache_access(&mut self, hit: bool)
        ensures
            *final(self) == (LSMMetrics {
                block_cache_hits: if hit { wrap_add(old(self).block_cache_hits, 1) } else { old(self).block_cache_hits },
                block_cache_misses: if hit { old(self).block_cache_misses } else { wrap_add(old(self).block_cache_misses, 1) },
                ..*old(self)
            }),
    {
        if hit {
            self.block_cache_hits = self.block_cache_hits.wrapping_add(1);
        } else {
            self.block_cache_misses = self.block_cache_misses.wrapping_add(1);
        }
    }

    /// Counts a flush of `bytes` bytes that took `duration`, and stamps the
    /// time of the last flush.
    pub fn record_flush(&mut self, bytes: u64, duration: Duration)
        ensures
            *final(self) == (LSMMetrics {
                total_flushes: wrap_add(old(self).total_flushes, 1),
                bytes_flushed: wrap_add(old(self).bytes_flushed, bytes as nat),
                flush_duration_sum_ns: wrap_add(old(self).flush_duration_sum_ns, nanos_u64(duration) as nat),
                last_flush_time: final(self).last_flush_time,
                ..*old(self)
            }),
    {
        let nanos = duration_nanos(&duration);
        self.total_flushes = self.total_flushes.wrapping_add(1);
        self.bytes_flushed = self.bytes_flushed.wrapping_add(bytes);
        self.flush_duration_sum_ns = self.flush_duration_sum_ns.wrapping_add(nanos as u64);
        self.last_flush_time = current_timestamp();
    }

    /// Number of flushes counted.
    pub fn total_flushes(&self) -> (r: u64)
        ensures
            r == self.total_flushes,
    {
        self.total_flushes
    }

    /// Mean duration of the flushes counted; zero when there were none.
    pub fn avg_flush_duration(&self) -> (r: Duration)
        ensures
            nanos_of(r) == average(self.flush_duration_sum_ns, self.total_flushes),
    {
        if self.total_flushes == 0 {
            return duration_from_nanos(0);
        }
        duration_from_nanos(self.flush_duration_sum_ns / self.total_flushes)
    }

    /// Counts a compaction that read `bytes_in` and wrote `bytes_out` bytes in
    /// `duration`, and stamps the time of the last compaction.
    pub fn record_compaction(&mut self, bytes_in: u64, bytes_out: u64, duration: Duration)
        ensures
            *final(self) == (LSMMetrics {
                total_compactions: wrap_add(old(self).total_compactions, 1),
                bytes_compacted_in: wrap_add(old(self).bytes_compacted_in, bytes_in as nat),
                bytes_compacted_out: wrap_add(old(self).bytes_compacted_out, bytes_out as nat),
                compaction_duration_sum_ns: wrap_add(old(self).compaction_duration_sum_ns, nanos_u64(duration) as nat),
                last_compaction_time: final(self).last_compaction_time,
                ..*old(self)
            }),
    {
        let nanos = duration_nanos(&duration);
        self.total_compactions = self.total_compactions.wrapping_add(1);
        self.bytes_compacted_in = self.bytes_compacted_in.wrapping_add(bytes_in);
        self.bytes_compacted_out = self.bytes_compacted_out.wrapping_add(bytes_out);
        self.compaction_duration_sum_ns = self.compaction_duration_sum_ns.wrapping_add(nanos as u64);
        self.last_compaction_time = current_timestamp();
    }

    /// Number of compactions counted.
    pub fn total_compactions(&self) -> (r: u64)
        ensures
            r == self.total_compactions,
    {
        self.total_compactions
    }

    /// Seconds since the epoch at which the counters were created.
    pub fn creation_time(&self) -> (r: u64)
        ensures
            r == self.creation_time,
    {
        self.creation_time
    }

    /// Seconds since the epoch of the last write, 0 before any.
    pub fn last_write_time(&self) -> (r: u64)
        ensures
            r == self.last_write_time,
    {
        self.last_write_time
    }

    /// Seconds since the epoch of the last read, 0 before any.
    pub fn last_read_time(&self) -> (r: u64)
        ensures
            r == self.last_read_time,
    {
        self.last_read_time
    }

    /// Seconds since the epoch of the last flush, 0 before any.
    pub fn last_flush_time(&self) -> (r: u64)
        ensures
            r == self.last_flush_time,
    {
        self.last_flush_time
    }

    /// Seconds since the epoch of the last compaction, 0 before any.
    pub fn last_compaction_time(&self) -> (r: u64)
        ensures
            r == self.last_compaction_time,
    {
        self.last_compaction_time
    }

    /// Seconds from the creation time to `now`, 0 when `now` is earlier.
    pub fn uptime_at(&self, now: u64) -> (r: u64)
        ensures
            r == (if now >= self.creation_time { (now - self.creation_time) as u64 } else { 0 }),
    {
        now.saturating_sub(self.creation_time)
    }

    /// Seconds from the creation time to the current time, 0 when the clock
    /// reads earlier than the creation time. Nothing is stated of the value,
    /// which depends on the time of the call; `uptime_at` states it for a
    /// given time.
    pub fn uptime_seconds(&self) -> u64 {
        let now = current_timestamp();
        self.uptime_at(now)
    }

    /// Records the total size of `level`; levels past the tracked ones are
    /// ignored.
    pub fn set_level_size(&mut self, level: usize, size: u64)
        ensures
            level < TRACKED_LEVELS ==> *final(self) == (LSMMetrics {
                level_sizes: final(self).level_sizes,
                ..*old(self)
            }) && final(self).level_sizes@ == old(self).level_sizes@.update(level as int, size),
            level >= TRACKED_LEVELS ==> *final(self) == *old(self),
    {
        if level < TRACKED_LEVELS {
            self.level_sizes[level] = size;
        }
    }

    /// Records the number of files of `level`; levels past the tracked ones are
    /// ignored.
    pub fn set_level_file_count(&mut self, level: usize, count: usize)
        ensures
            level < TRACKED_LEVELS ==> *final(self) == (LSMMetrics {
                level_file_counts: final(self).level_file_counts,
                ..*old(self)
            }) && final(self).level_file_counts@ == old(self).level_file_counts@.update(level as int, count),
            level >= TRACKED_LEVELS ==> *final(self) == *old(self),
    {
        if level < TRACKED_LEVELS {
            self.level_file_counts[level] = count;
        }
    }

    /// The recorded size of `level`, 0 past the tracked levels.
    pub fn get_level_size(&self, level: usize) -> (r: u64)
        ensures
            r == (if level < TRACKED_LEVELS { self.level_sizes@[level as int] } else { 0 }),
    {
        if level < TRACKED_LEVELS {
            self.level_sizes[level]
        } else {
            0
        }
    }

    /// The recorded file count of `level`, 0 past the tracked levels.
    pub fn get_level_file_count(&self, level: usize) -> (r: usize)
        ensures
            r == (if level < TRACKED_LEVELS { self.level_file_counts@[level as int] } else { 0 }),
    {
        if level < TRACKED_LEVELS {
            self.level_file_counts[level]
        } else {
            0
        }
    }

    /// Records the number of active transactions.
    pub fn set_active_transactions(&mut self, count: usize)
        ensures
            *final(self) == (LSMMetrics { active_transactions: count, ..*old(self) }),
    {
        self.active_transactions = count;
    }

    /// Number of active transactions recorded.
    pub fn active_transactions(&self) -> (r: usize)
        ensures
            r == self.active_transactions,
    {
        self.active_transactions
    }

    /// Records the oldest snapshot sequence among active transactions, the
    /// watermark below which versions may be collected (`i64::MAX` when none
    /// is active).
    pub fn set_min_active_snapshot_seq(&mut self, seq: i64)
        ensures
            *final(self) == (LSMMetrics { min_active_snapshot_seq: seq, ..*old(self) }),
    {
        self.min_active_snapshot_seq = seq;
    }

    /// The watermark recorded, `i64::MAX` when no transaction is active.
    pub fn min_active_snapshot_seq(&self) -> (r: i64)
        ensures
            r == self.min_active_snapshot_seq,
    {
        self.min_active_snapshot_seq
    }

    /// Sum of the recorded level sizes (wrapping), the numerator of the space
    /// amplification.
    pub fn total_level_size(&self) -> (r: u64)
        ensures
            r == level_sum(self.level_sizes@, TRACKED_LEVELS as int),
    {
        let mut total: u64 = 0;
        let mut i: usize = 0;
        while i < TRACKED_LEVELS
            invariant
                i <= TRACKED_LEVELS,
                total == level_sum(self.level_sizes@, i as int),
            decreases TRACKED_LEVELS - i,
        {
            total = total.wrapping_add(self.level_sizes[i]);
            i = i + 1;
        }
        total
    }
}

/// Wrapping sum of the first `n` level sizes.
pub open spec fn level_sum(sizes: Seq<u64>, n: int) -> u64
    decreases n,
{
    if n <= 0 { 0 } else { wrap_add(level_sum(sizes, n - 1), sizes[n - 1] as nat) }
}

impl Default for LSMMetrics {
    fn default() -> (r: Self)
        ensures
            r == Self::fresh(r.creation_time),
    {
        Self::new()
    }
}

} // verus!
