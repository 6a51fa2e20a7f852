//! The SSTable file: its data blocks, bloom filter, index and footer laid out as
//! bytes, how a table is built from sorted entries, and how it is read back.
use vstd::prelude::*;
use crate::codec::{append_bytes, invalid_data, InvalidData};
use crate::keyorder::{compare_keys, lex_lt, KeyOrder};
use crate::lsm::block_codec::{block_payload, decode_block_spec, framed_block, inline_only, BlockParse, NO_COMPRESSION};
use crate::lsm::compactor::{cut_batches, lemma_cut_batches, run_views, split_into_batches, batch_ok};
use crate::lsm::memtable::{entry_views, total_size, Entry, EntryView};
use crate::lsm::sstable::{
    bit_set, bloom_bytes, decode_bloom_spec, decode_footer_spec, decode_index_spec, filter_admits, fnv1a, footer_bytes,
    hash_count, index_bytes, index_search, lemma_probe_bit_bound, lemma_probe_step, probe_bit, probed, BlockHandle, BloomFilter, DataBlock, Footer, IndexBlock, IndexEntryView,
    IndexParse, SSTable, SSTableMetadata, SSTableMetadataView, FOOTER_SIZE, MAGIC_NUMBER, VERSION,
};

verus! {

/// Bloom filter bits reserved per key.
pub const BLOOM_BITS_PER_KEY: usize = 10;

/// Restart points of a block built entry by entry: one every sixteen entries.
pub open spec fn restarts_for(n: nat) -> Seq<u32> {
    Seq::new(((n + 15) / 16) as nat, |i: int| (16 * i) as u32)
}

/// Appending an entry to a block of `n` entries adds a restart point exactly
/// when `n` is a multiple of sixteen, at `n`.
pub proof fn lemma_restarts_step(n: nat)
    requires
        n < 0x1_0000_0000,
    ensures
        restarts_for(n + 1) == if n % 16 == 0 { restarts_for(n).push(n as u32) } else { restarts_for(n) },
{
    let q = n / 16;
    let r = n % 16;
    assert(n == 16 * q + r);
    if r == 0 {
        assert((n + 15) / 16 == q) by (nonlinear_arith)
            requires n == 16 * q, q >= 0;
        assert((n + 1 + 15) / 16 == q + 1) by (nonlinear_arith)
            requires n == 16 * q, q >= 0;
        assert(restarts_for(n + 1) =~= restarts_for(n).push(n as u32));
    } else {
        assert((n + 15) / 16 == q + 1) by (nonlinear_arith)
            requires n == 16 * q + r, 1 <= r < 16, q >= 0;
        assert((n + 1 + 15) / 16 == q + 1) by (nonlinear_arith)
            requires n == 16 * q + r, 1 <= r < 16, q >= 0;
        assert(restarts_for(n + 1) =~= restarts_for(n));
    }
}

/// A data block as the table stores it: uncompressed, with its restart points.
pub open spec fn block_image(b: Seq<EntryView>) -> Seq<u8> {
    framed_block(NO_COMPRESSION, block_payload(b, restarts_for(b.len())))
}

/// The data blocks, one after the other.
pub open spec fn blocks_image(bs: Seq<Seq<EntryView>>) -> Seq<u8>
    decreases bs.len(),
{
    if bs.len() == 0 {
        Seq::empty()
    } else {
        blocks_image(bs.drop_last()) + block_image(bs.last())
    }
}

/// The index of the data blocks: each block's last key and where it lies.
pub open spec fn table_index(bs: Seq<Seq<EntryView>>) -> Seq<IndexEntryView>
    decreases bs.len(),
{
    if bs.len() == 0 {
        Seq::empty()
    } else {
        table_index(bs.drop_last()).push(
            (
                bs.last().last().key,
                BlockHandle {
                    offset: blocks_image(bs.drop_last()).len() as u64,
                    size: block_image(bs.last()).len() as u64,
                },
            ),
        )
    }
}

/// The keys of the entries.
pub open spec fn keys_of(es: Seq<EntryView>) -> Seq<Seq<u8>> {
    es.map_values(|e: EntryView| e.key)
}

/// `bits` is the bit array of `len` bytes that adding `keys` to an empty filter
/// with `k` probes per key sets: a bit is set exactly when some key probes it.
pub open spec fn bloom_built(bits: Seq<u8>, k: int, keys: Seq<Seq<u8>>, len: nat) -> bool {
    &&& bits.len() == len
    &&& forall|p: int|
        0 <= p < len * 8 ==> (#[trigger] bit_set(bits, p) <==> exists|i: int|
            0 <= i < keys.len() && #[trigger] probed(fnv1a(keys[i]), k, (len * 8) as u64, p))
}

/// `bits` with the first `i` probes of hash `h` set, in a filter of `n` bits.
pub open spec fn set_probes(bits: Seq<u8>, h: u64, i: int, n: u64) -> Seq<u8>
    decreases i,
{
    if i <= 0 {
        bits
    } else {
        let b = set_probes(bits, h, i - 1, n);
        let p = probe_bit(h, i - 1, n);
        b.update(p as int / 8, b[p as int / 8] | (1u8 << ((p % 8) as u8)))
    }
}

/// `bits` after adding `keys`, in order, with `k` probes each to a filter of `n` bits.
pub open spec fn add_keys(bits: Seq<u8>, keys: Seq<Seq<u8>>, k: int, n: u64) -> Seq<u8>
    decreases keys.len(),
{
    if keys.len() == 0 {
        bits
    } else {
        set_probes(add_keys(bits, keys.drop_last(), k, n), fnv1a(keys.last()), k, n)
    }
}

/// The bit array of a filter of `len` bytes and `k` probes holding `keys`.
pub open spec fn bloom_bits(k: int, keys: Seq<Seq<u8>>, len: nat) -> Seq<u8> {
    add_keys(Seq::new(len, |i: int| 0u8), keys, k, (len * 8) as u64)
}

/// Setting probes keeps the length and sets exactly the probed bits.
proof fn lemma_set_probes(bits: Seq<u8>, h: u64, i: int, n: u64)
    requires
        0 <= i,
        0 < n,
        n == bits.len() * 8,
    ensures
        set_probes(bits, h, i, n).len() == bits.len(),
        forall|p: int| 0 <= p < n ==> (#[trigger] bit_set(set_probes(bits, h, i, n), p) <==> bit_set(bits, p) || probed(h, i, n, p)),
    decreases i,
{
    if i > 0 {
        lemma_set_probes(bits, h, i - 1, n);
        let b = set_probes(bits, h, i - 1, n);
        let p = probe_bit(h, i - 1, n);
        lemma_probe_bit_bound(h, i - 1, n);
        lemma_probe_step(bits, b, set_probes(bits, h, i, n), h, i - 1, n, p);
    } else {
        assert forall|p: int| 0 <= p < n implies !probed(h, 0, n, p) by {}
    }
}

/// The filter built from the keys sets exactly the bits some key probes.
pub proof fn lemma_bloom_bits_built(k: int, keys: Seq<Seq<u8>>, len: nat)
    requires
        0 <= k,
        0 < len,
        len * 8 <= u64::MAX,
    ensures
        bloom_built(bloom_bits(k, keys, len), k, keys, len),
    decreases keys.len(),
{
    let n = (len * 8) as u64;
    let zero = Seq::new(len, |i: int| 0u8);
    if keys.len() == 0 {
        assert forall|p: int| 0 <= p < len * 8 implies !bit_set(zero, p) by {
            assert(zero[p / 8] == 0u8);
            assert((0u8 & (1u8 << ((p % 8) as u8))) == 0u8) by (bit_vector);
        }
    } else {
        lemma_bloom_bits_built(k, keys.drop_last(), len);
        let before = bloom_bits(k, keys.drop_last(), len);
        lemma_set_probes(before, fnv1a(keys.last()), k, n);
        assert forall|p: int| 0 <= p < len * 8 implies (#[trigger] bit_set(bloom_bits(k, keys, len), p) <==> exists|i: int|
            0 <= i < keys.len() && #[trigger] probed(fnv1a(keys[i]), k, n, p)) by {
            let dl = keys.drop_last();
            if exists|i: int| 0 <= i < keys.len() && #[trigger] probed(fnv1a(keys[i]), k, n, p) {
                let i = choose|i: int| 0 <= i < keys.len() && #[trigger] probed(fnv1a(keys[i]), k, n, p);
                if i < keys.len() - 1 {
                    assert(dl[i] == keys[i]);
                }
            }
            if exists|i: int| 0 <= i < dl.len() && #[trigger] probed(fnv1a(dl[i]), k, n, p) {
                let i = choose|i: int| 0 <= i < dl.len() && #[trigger] probed(fnv1a(dl[i]), k, n, p);
                assert(keys[i] == dl[i]);
            }
        }
    }
}

/// Bytes of the bloom filter of a table of `n` entries.
pub open spec fn bloom_len(n: nat) -> nat {
    ((n * BLOOM_BITS_PER_KEY + 7) / 8) as nat
}

/// The encoded bloom filter of a table holding `es`.
pub open spec fn table_bloom(es: Seq<EntryView>) -> Seq<u8> {
    let k = hash_count(BLOOM_BITS_PER_KEY as int);
    bloom_bytes(k, bloom_bits(k, keys_of(es), bloom_len(es.len())))
}

/// The footer of a table whose data blocks take `data` bytes, bloom filter `bloom`
/// bytes and index `index` bytes.
pub open spec fn table_footer(data: nat, bloom: nat, index: nat) -> Footer {
    Footer {
        meta_index_handle: BlockHandle { offset: data as u64, size: bloom as u64 },
        index_handle: BlockHandle { offset: (data + bloom) as u64, size: index as u64 },
        magic: MAGIC_NUMBER,
        version: VERSION,
        checksum: 0,
    }
}

/// The file of a table holding `es` in blocks of about `block_size` bytes: data
/// blocks, bloom filter, index, then footer.
pub open spec fn table_image(es: Seq<EntryView>, block_size: int) -> Seq<u8> {
    let bs = cut_batches(es, block_size);
    let data = blocks_image(bs);
    let bloom = table_bloom(es);
    let index = index_bytes(table_index(bs));
    data + bloom + index + footer_bytes(table_footer(data.len(), bloom.len(), index.len()))
}

/// The smallest sequence number among the entries.
pub open spec fn min_sequence(es: Seq<EntryView>) -> u64
    decreases es.len(),
{
    if es.len() <= 1 {
        es[0].sequence
    } else {
        let m = min_sequence(es.drop_last());
        if es.last().sequence < m { es.last().sequence } else { m }
    }
}

/// The largest sequence number among the entries.
pub open spec fn max_sequence(es: Seq<EntryView>) -> u64
    decreases es.len(),
{
    if es.len() <= 1 {
        es[0].sequence
    } else {
        let m = max_sequence(es.drop_last());
        if es.last().sequence > m { es.last().sequence } else { m }
    }
}

/// The metadata of a table holding `es` whose file takes `size` bytes.
pub open spec fn table_metadata(es: Seq<EntryView>, file_number: u64, level: usize, size: nat, created_at: u64) -> SSTableMetadataView {
    SSTableMetadataView {
        file_number,
        level,
        min_key: es[0].key,
        max_key: es.last().key,
        min_sequence: min_sequence(es),
        max_sequence: max_sequence(es),
        entry_count: es.len() as u64,
        file_size: size as u64,
        created_at,
    }
}

/// Bit `c` of byte `j` is bit `8 * j + c` of the array.
proof fn lemma_byte_bits(a: Seq<u8>, b: Seq<u8>, j: int, c: int)
    requires
        0 <= j < a.len(),
        a.len() == b.len(),
        0 <= c < 8,
        bit_set(a, 8 * j + c) <==> bit_set(b, 8 * j + c),
    ensures
        (a[j] & (1u8 << (c as u8)) != 0) <==> (b[j] & (1u8 << (c as u8)) != 0),
{
    assert((8 * j + c) / 8 == j);
    assert((8 * j + c) % 8 == c);
}

/// Two bit arrays of one length with the same bits set are equal.
proof fn lemma_bits_determine_bytes(a: Seq<u8>, b: Seq<u8>)
    requires
        a.len() == b.len(),
        forall|p: int| 0 <= p < a.len() * 8 ==> (#[trigger] bit_set(a, p) <==> bit_set(b, p)),
    ensures
        a == b,
{
    assert forall|j: int| 0 <= j < a.len() implies a[j] == b[j] by {
        let x = a[j];
        let y = b[j];
        assert forall|c: int| 0 <= c < 8 implies #[trigger] bit_set(a, 8 * j + c) <==> bit_set(b, 8 * j + c) by {
            assert(8 * j + c < a.len() * 8);
        }
        lemma_byte_bits(a, b, j, 0);
        lemma_byte_bits(a, b, j, 1);
        lemma_byte_bits(a, b, j, 2);
        lemma_byte_bits(a, b, j, 3);
        lemma_byte_bits(a, b, j, 4);
        lemma_byte_bits(a, b, j, 5);
        lemma_byte_bits(a, b, j, 6);
        lemma_byte_bits(a, b, j, 7);
        assert(x & (1u8 << 0u8) != 0 <==> y & (1u8 << 0u8) != 0);
        assert(x & (1u8 << 1u8) != 0 <==> y & (1u8 << 1u8) != 0);
        assert(x & (1u8 << 2u8) != 0 <==> y & (1u8 << 2u8) != 0);
        assert(x & (1u8 << 3u8) != 0 <==> y & (1u8 << 3u8) != 0);
        assert(x & (1u8 << 4u8) != 0 <==> y & (1u8 << 4u8) != 0);
        assert(x & (1u8 << 5u8) != 0 <==> y & (1u8 << 5u8) != 0);
        assert(x & (1u8 << 6u8) != 0 <==> y & (1u8 << 6u8) != 0);
        assert(x & (1u8 << 7u8) != 0 <==> y & (1u8 << 7u8) != 0);
        assert(x == y) by (bit_vector)
            requires
                x & (1u8 << 0u8) != 0 <==> y & (1u8 << 0u8) != 0,
                x & (1u8 << 1u8) != 0 <==> y & (1u8 << 1u8) != 0,
                x & (1u8 << 2u8) != 0 <==> y & (1u8 << 2u8) != 0,
                x & (1u8 << 3u8) != 0 <==> y & (1u8 << 3u8) != 0,
                x & (1u8 << 4u8) != 0 <==> y & (1u8 << 4u8) != 0,
                x & (1u8 << 5u8) != 0 <==> y & (1u8 << 5u8) != 0,
                x & (1u8 << 6u8) != 0 <==> y & (1u8 << 6u8) != 0,
                x & (1u8 << 7u8) != 0 <==> y & (1u8 << 7u8) != 0,
        ;
    }
    assert(a =~= b);
}

/// A bit array built from the keys is the one the table's filter holds.
proof fn lemma_bloom_bits_unique(bits: Seq<u8>, k: int, keys: Seq<Seq<u8>>, len: nat)
    requires
        bloom_built(bits, k, keys, len),
        0 <= k,
        0 < len,
        len * 8 <= u64::MAX,
    ensures
        bloom_bits(k, keys, len) == bits,
{
    let c = bloom_bits(k, keys, len);
    lemma_bloom_bits_built(k, keys, len);
    assert forall|p: int| 0 <= p < bits.len() * 8 implies (#[trigger] bit_set(bits, p) <==> bit_set(c, p)) by {
        assert(bit_set(bits, p) <==> exists|i: int| 0 <= i < keys.len() && #[trigger] probed(fnv1a(keys[i]), k, (len * 8) as u64, p));
        assert(bit_set(c, p) <==> exists|i: int| 0 <= i < keys.len() && #[trigger] probed(fnv1a(keys[i]), k, (len * 8) as u64, p));
    }
    lemma_bits_determine_bytes(bits, c);
}

/// Builds the bloom filter of a table holding `entries`.
fn build_bloom(entries: &Vec<Entry>) -> (r: BloomFilter)
    requires
        entries@.len() >= 1,
        entries@.len() * BLOOM_BITS_PER_KEY + 7 <= usize::MAX,
    ensures
        r.probes() == hash_count(BLOOM_BITS_PER_KEY as int),
        r.bit_array() == bloom_bits(
            hash_count(BLOOM_BITS_PER_KEY as int),
            keys_of(entry_views(entries@)),
            bloom_len(entries@.len()),
        ),
{
    let ghost keys = keys_of(entry_views(entries@));
    let ghost k = hash_count(BLOOM_BITS_PER_KEY as int);
    let ghost len = bloom_len(entries@.len());
    let mut bloom = BloomFilter::new(entries.len(), BLOOM_BITS_PER_KEY);
    assert(bloom.bit_array().len() == len);
    assert(len >= 1);
    assert forall|p: int| 0 <= p < len * 8 implies (#[trigger] bit_set(bloom.bit_array(), p) <==> exists|i: int|
        0 <= i < keys.take(0).len() && #[trigger] probed(fnv1a(keys.take(0)[i]), k, (len * 8) as u64, p)) by {
        assert(bloom.bit_array()[p / 8] == 0u8);
        assert((0u8 & (1u8 << ((p % 8) as u8))) == 0u8) by (bit_vector);
    }
    let mut i: usize = 0;
    while i < entries.len()
        invariant
            keys == keys_of(entry_views(entries@)),
            keys.len() == entries@.len(),
            i <= entries@.len(),
            bloom.probes() == k,
            len >= 1,
            len * 8 <= usize::MAX,
            bloom_built(bloom.bit_array(), k, keys.take(i as int), len),
        decreases entries@.len() - i,
    {
        let ghost before = bloom.bit_array();
        bloom.add(entries[i].key.as_slice());
        proof {
            let nk = keys.take(i + 1);
            assert(keys[i as int] == entries@[i as int].key@);
            assert forall|p: int| 0 <= p < len * 8 implies (#[trigger] bit_set(bloom.bit_array(), p) <==> exists|q: int|
                0 <= q < nk.len() && #[trigger] probed(fnv1a(nk[q]), k, (len * 8) as u64, p)) by {
                if exists|q: int| 0 <= q < nk.len() && #[trigger] probed(fnv1a(nk[q]), k, (len * 8) as u64, p) {
                    let q = choose|q: int| 0 <= q < nk.len() && #[trigger] probed(fnv1a(nk[q]), k, (len * 8) as u64, p);
                    if q < i {
                        assert(keys.take(i as int)[q] == nk[q]);
                    }
                }
                if exists|q: int| 0 <= q < keys.take(i as int).len() && #[trigger] probed(
                    fnv1a(keys.take(i as int)[q]),
                    k,
                    (len * 8) as u64,
                    p,
                ) {
                    let q = choose|q: int| 0 <= q < keys.take(i as int).len() && #[trigger] probed(
                        fnv1a(keys.take(i as int)[q]),
                        k,
                        (len * 8) as u64,
                        p,
                    );
                    assert(nk[q] == keys.take(i as int)[q]);
                }
                if probed(fnv1a(keys[i as int]), k, (len * 8) as u64, p) {
                    assert(nk[i as int] == keys[i as int]);
                }
            }
        }
        i = i + 1;
    }
    assert(keys.take(i as int) =~= keys);
    proof {
        lemma_bloom_bits_unique(bloom.bit_array(), k, keys, len);
    }
    bloom
}

/// Builds the data block holding `batch`, entry by entry.
fn build_block(batch: Vec<Entry>) -> (r: DataBlock)
    ensures
        entry_views(r.entries@) == entry_views(batch@),
        r.restart_points@ == restarts_for(batch@.len()),
{
    let mut block = DataBlock::new();
    assert(block.restart_points@ =~= restarts_for(0));
    let mut batch = batch;
    let ghost bv = entry_views(batch@);
    let n = batch.len();
    let mut i: usize = 0;
    while i < n
        invariant
            n == batch@.len(),
            bv == entry_views(batch@),
            i <= n,
            entry_views(block.entries@) == bv.take(i as int),
            block.restart_points@ == restarts_for(i as nat),
        decreases n - i,
    {
        let e = batch[i].duplicate();
        let ghost old_entries = block.entries@;
        let ghost old_len = block.entries@.len();
        proof {
            assert(entry_views(block.entries@).len() == block.entries@.len());
            assert(old_len == i);
        }
        block.add_entry(e);
        proof {
            assert(entry_views(block.entries@) =~= bv.take(i + 1)) by {
                assert(bv.take(i + 1) =~= bv.take(i as int).push(bv[i as int]));
                assert(entry_views(block.entries@) =~= entry_views(block.entries@.drop_last()).push(e@));
                assert(block.entries@.drop_last() =~= old_entries);
            }
            if i % 16 == 0 {
                assert(((i + 1 + 15) / 16) as nat == ((i + 15) / 16) as nat + 1);
                assert(16 * ((i + 15) / 16) == i);
                assert(restarts_for((i + 1) as nat) =~= restarts_for(i as nat).push(i as u32));
            } else {
                assert(((i + 1 + 15) / 16) as nat == ((i + 15) / 16) as nat);
                assert(restarts_for((i + 1) as nat) =~= restarts_for(i as nat));
            }
        }
        i = i + 1;
    }
    assert(bv.take(n as int) =~= bv);
    block
}


/// Each entry of each run lies in the runs laid end to end.
proof fn lemma_flatten_contains(bs: Seq<Seq<EntryView>>, k: int, t: int)
    requires
        0 <= k < bs.len(),
        0 <= t < bs[k].len(),
    ensures
        bs.flatten().contains(bs[k][t]),
    decreases bs.len(),
{
    let rest = bs.drop_first().flatten();
    assert(bs.flatten() == bs[0] + rest);
    if k == 0 {
        assert((bs[0] + rest)[t] == bs[0][t]);
    } else {
        lemma_flatten_contains(bs.drop_first(), k - 1, t);
        assert(bs.drop_first()[k - 1] == bs[k]);
        let j = choose|j: int| 0 <= j < rest.len() && rest[j] == bs[k][t];
        assert((bs[0] + rest)[bs[0].len() + j] == rest[j]);
    }
}

/// The smallest and largest sequence numbers of the entries.
fn sequence_bounds(entries: &Vec<Entry>) -> (r: (u64, u64))
    requires
        entries@.len() >= 1,
    ensures
        r.0 == min_sequence(entry_views(entries@)),
        r.1 == max_sequence(entry_views(entries@)),
{
    let ghost ev = entry_views(entries@);
    let mut lo = entries[0].sequence;
    let mut hi = entries[0].sequence;
    let mut i: usize = 1;
    assert(ev.take(1).len() == 1);
    while i < entries.len()
        invariant
            ev == entry_views(entries@),
            1 <= i <= entries@.len(),
            lo == min_sequence(ev.take(i as int)),
            hi == max_sequence(ev.take(i as int)),
        decreases entries@.len() - i,
    {
        let s = entries[i].sequence;
        assert(ev.take(i + 1).drop_last() =~= ev.take(i as int));
        assert(ev.take(i + 1).last() == ev[i as int]);
        if s < lo {
            lo = s;
        }
        if s > hi {
            hi = s;
        }
        i = i + 1;
    }
    assert(ev.take(i as int) =~= ev);
    (lo, hi)
}

impl SSTable {
    /// Builds the file of a table holding `entries` in their order, data blocks
    /// closing at about `block_size` bytes, and the table's metadata; fails on an
    /// empty list.
    pub fn build(entries: Vec<Entry>, file_number: u64, level: usize, block_size: usize, created_at: u64) -> (r: Result<
        (Vec<u8>, SSTableMetadata),
        InvalidData,
    >)
        requires
            inline_only(entry_views(entries@)),
            total_size(entry_views(entries@)) <= usize::MAX,
            entries@.len() * BLOOM_BITS_PER_KEY + 7 <= usize::MAX,
        ensures
            match r {
                Ok((bytes, meta)) => entries@.len() > 0 && bytes@ == table_image(entry_views(entries@), block_size as int)
                    && meta@ == table_metadata(entry_views(entries@), file_number, level, bytes@.len(), created_at),
                Err(e) => entries@.len() == 0 && e.text() == "Cannot create SSTable from empty entries"@,
            },
    {
        if entries.len() == 0 {
            return Err(invalid_data("Cannot create SSTable from empty entries"));
        }
        let ghost ev = entry_views(entries@);
        let bloom = build_bloom(&entries);
        let (min_seq, max_seq) = sequence_bounds(&entries);
        let last = entries.len() - 1;
        assert(ev[0].key == entries@[0].key@);
        assert(ev[last as int].key == entries@[last as int].key@);
        let min_key = crate::lsm::memtable::copy_bytes(&entries[0].key);
        let max_key = crate::lsm::memtable::copy_bytes(&entries[last].key);
        let count = entries.len() as u64;
        let mut batches = split_into_batches(entries, block_size);
        let ghost bv = run_views(batches@);
        proof {
            lemma_cut_batches(ev, block_size as int);
        }
        let mut out: Vec<u8> = Vec::new();
        let mut index = IndexBlock::new();
        let n = batches.len();
        let mut j: usize = 0;
        assert(bv.take(0) =~= Seq::<Seq<EntryView>>::empty());
        while j < n
            invariant
                n == bv.len(),
                batches@.len() == n,
                bv == cut_batches(ev, block_size as int),
                bv.flatten() == ev,
                inline_only(ev),
                forall|q: int| 0 <= q < bv.len() ==> batch_ok(#[trigger] bv[q], block_size as int),
                forall|q: int| j <= q < n ==> entry_views((#[trigger] batches@[q])@) == bv[q],
                j <= n,
                out@ == blocks_image(bv.take(j as int)),
                index.view_entries() == table_index(bv.take(j as int)),
            decreases n - j,
        {
            let mut batch: Vec<Entry> = Vec::new();
            std::mem::swap(&mut batch, &mut batches[j]);
            assert(entry_views(batch@) == bv[j as int]);
            assert(batch_ok(bv[j as int], block_size as int));
            let block = build_block(batch);
            proof {
                assert forall|t: int| 0 <= t < entry_views(block.entries@).len() implies !(#[trigger] entry_views(
                    block.entries@,
                )[t].value matches Some(crate::lsm::memtable::ValueView::Blob(_))) by {
                    lemma_flatten_contains(bv, j as int, t);
                    let i = choose|i: int| 0 <= i < ev.len() && ev[i] == bv[j as int][t];
                    assert(ev[i] == entry_views(block.entries@)[t]);
                }
            }
            let k = block.entries.len() - 1;
            let last_key = crate::lsm::memtable::copy_bytes(&block.entries[k].key);
            assert(last_key@ == bv[j as int].last().key) by {
                assert(entry_views(block.entries@)[k as int] == block.entries@[k as int]@);
            }
            let data = block.encode();
            let handle = BlockHandle { offset: out.len() as u64, size: data.len() as u64 };
            proof {
                assert(bv.take(j + 1).drop_last() =~= bv.take(j as int));
                assert(bv.take(j + 1).last() == bv[j as int]);
                assert(data@ == block_image(bv[j as int]));
            }
            append_bytes(&mut out, data.as_slice());
            index.add_entry(last_key, handle);
            j = j + 1;
        }
        assert(bv.take(n as int) =~= bv);
        let data_len = out.len();
        let bloom_data = bloom.encode();
        append_bytes(&mut out, bloom_data.as_slice());
        let index_data = match index.encode() {
            Ok(b) => b,
            Err(e) => return Err(e),
        };
        let meta_index_handle = BlockHandle { offset: data_len as u64, size: bloom_data.len() as u64 };
        let index_handle = BlockHandle { offset: out.len() as u64, size: index_data.len() as u64 };
        append_bytes(&mut out, index_data.as_slice());
        let footer = Footer { meta_index_handle, index_handle, magic: MAGIC_NUMBER, version: VERSION, checksum: 0 };
        let footer_data = footer.encode();
        append_bytes(&mut out, footer_data.as_slice());
        let meta = SSTableMetadata {
            file_number,
            level,
            min_key,
            max_key,
            min_sequence: min_seq,
            max_sequence: max_seq,
            entry_count: count,
            file_size: out.len() as u64,
            created_at,
        };
        proof {
            assert(footer == table_footer(data_len as nat, bloom_data@.len(), index_data@.len()));
            assert(bloom_data@ == table_bloom(ev));
        }
        Ok((out, meta))
    }
}


/// Message of a read of a block that lies outside the file.
pub open spec fn outside_text() -> Seq<char> {
    "Block lies outside the SSTable file"@
}

/// The bytes of the block at `h`, when it lies within `d`.
pub open spec fn block_at(d: Seq<u8>, h: BlockHandle) -> Option<Seq<u8>> {
    if h.offset as int + h.size as int <= d.len() {
        Some(d.subrange(h.offset as int, h.offset + h.size))
    } else {
        None
    }
}

/// Binary search of a block's entries between `lo` and `hi` for one with key `key`.
pub open spec fn entry_search(es: Seq<EntryView>, key: Seq<u8>, lo: int, hi: int) -> Option<int>
    decreases hi - lo,
{
    if lo >= hi {
        None
    } else {
        let mid = lo + (hi - lo) / 2;
        if es[mid].key == key {
            Some(mid)
        } else if lex_lt(es[mid].key, key) {
            entry_search(es, key, mid + 1, hi)
        } else {
            entry_search(es, key, lo, mid)
        }
    }
}

/// Outcome of looking a key up in a table file.
pub enum TableRead {
    Found(EntryView),
    Absent,
    Failed(Seq<char>),
    /// Reading would divide by zero or index out of bounds.
    Panics,
}

/// The footer of a file, or why there is none.
pub open spec fn footer_of(d: Seq<u8>) -> Result<Footer, Seq<char>> {
    if d.len() < FOOTER_SIZE {
        Err("SSTable file too short"@)
    } else {
        decode_footer_spec(d.subrange(d.len() - FOOTER_SIZE, d.len() as int))
    }
}

/// Looking `key` up in the data block at `h`.
pub open spec fn read_block_for(d: Seq<u8>, h: BlockHandle, key: Seq<u8>) -> TableRead {
    match block_at(d, h) {
        None => TableRead::Failed(outside_text()),
        Some(b) => match decode_block_spec(b) {
            BlockParse::Failed(m) => TableRead::Failed(m),
            BlockParse::Overrun => TableRead::Panics,
            BlockParse::Parsed(es, _) => match entry_search(es, key, 0, es.len() as int) {
                Some(j) => TableRead::Found(es[j]),
                None => TableRead::Absent,
            },
        },
    }
}

/// Looking `key` up in the table file `d`: read the footer, ask the bloom filter,
/// search the index for the block that may hold the key, and search that block.
pub open spec fn read_table_spec(d: Seq<u8>, key: Seq<u8>) -> TableRead {
    match footer_of(d) {
        Err(m) => TableRead::Failed(m),
        Ok(f) => match block_at(d, f.meta_index_handle) {
            None => TableRead::Failed(outside_text()),
            Some(bd) => match decode_bloom_spec(bd) {
                Err(m) => TableRead::Failed(m),
                Ok((k, bits)) => if bits.len() == 0 || bits.len() * 8 > u64::MAX {
                    TableRead::Panics
                } else if !filter_admits(bits, k, key) {
                    TableRead::Absent
                } else {
                    match block_at(d, f.index_handle) {
                        None => TableRead::Failed(outside_text()),
                        Some(id) => match decode_index_spec(id) {
                            IndexParse::Failed(m) => TableRead::Failed(m),
                            IndexParse::Overrun => TableRead::Panics,
                            IndexParse::Parsed(s) => {
                                let i = index_search(s, key, 0, s.len() as int);
                                if i >= s.len() {
                                    TableRead::Absent
                                } else {
                                    read_block_for(d, s[i].1, key)
                                }
                            },
                        },
                    }
                },
            },
        },
    }
}

/// Outcome of reading every entry of a table file.
pub enum TableScan {
    Entries(Seq<EntryView>),
    Failed(Seq<char>),
    /// Reading would index out of bounds.
    Panics,
}

/// Reading the data blocks of the first `n` index entries, in order.
pub open spec fn scan_blocks(d: Seq<u8>, s: Seq<IndexEntryView>, n: int) -> TableScan
    decreases n,
{
    if n <= 0 {
        TableScan::Entries(Seq::empty())
    } else {
        match scan_blocks(d, s, n - 1) {
            TableScan::Entries(acc) => match block_at(d, s[n - 1].1) {
                None => TableScan::Failed(outside_text()),
                Some(b) => match decode_block_spec(b) {
                    BlockParse::Parsed(es, _) => TableScan::Entries(acc + es),
                    BlockParse::Failed(m) => TableScan::Failed(m),
                    BlockParse::Overrun => TableScan::Panics,
                },
            },
            other => other,
        }
    }
}

/// The index of the table file `d`: found through the footer, then decoded.
pub open spec fn index_of_table(d: Seq<u8>) -> IndexParse {
    match footer_of(d) {
        Err(m) => IndexParse::Failed(m),
        Ok(f) => match block_at(d, f.index_handle) {
            None => IndexParse::Failed(outside_text()),
            Some(id) => decode_index_spec(id),
        },
    }
}

/// Reading every entry of the table file `d`: footer, index, then each data block
/// in index order.
pub open spec fn scan_table_spec(d: Seq<u8>) -> TableScan {
    match index_of_table(d) {
        IndexParse::Failed(m) => TableScan::Failed(m),
        IndexParse::Overrun => TableScan::Panics,
        IndexParse::Parsed(s) => scan_blocks(d, s, s.len() as int),
    }
}

/// The bytes of the block at `h`, or an error when it lies outside `d`.
fn slice_block(d: &[u8], h: BlockHandle) -> (r: Result<&[u8], InvalidData>)
    ensures
        match (r, block_at(d@, h)) {
            (Ok(b), Some(sb)) => b@ == sb,
            (Err(e), None) => e.text() == outside_text(),
            _ => false,
        },
{
    let n = d.len() as u64;
    if h.offset <= n && h.size <= n - h.offset {
        Ok(vstd::slice::slice_subrange(d, h.offset as usize, (h.offset + h.size) as usize))
    } else {
        Err(invalid_data("Block lies outside the SSTable file"))
    }
}

/// The footer of a file.
fn read_footer(d: &[u8]) -> (r: Result<Footer, InvalidData>)
    ensures
        match (r, footer_of(d@)) {
            (Ok(f), Ok(sf)) => f == sf,
            (Err(e), Err(m)) => e.text() == m,
            _ => false,
        },
{
    let n = d.len();
    if n < FOOTER_SIZE {
        return Err(invalid_data("SSTable file too short"));
    }
    Footer::decode(vstd::slice::slice_subrange(d, n - FOOTER_SIZE, n))
}

/// Binary search of a block's entries for `key`.
fn search_entries(es: &Vec<Entry>, key: &[u8]) -> (r: Option<usize>)
    ensures
        match entry_search(entry_views(es@), key@, 0, es@.len() as int) {
            Some(j) => r == Some(j as usize),
            None => r is None,
        },
{
    let ghost s = entry_views(es@);
    let mut lo: usize = 0;
    let mut hi: usize = es.len();
    while lo < hi
        invariant
            s == entry_views(es@),
            s.len() == es@.len(),
            lo <= hi <= s.len(),
            entry_search(s, key@, lo as int, hi as int) == entry_search(s, key@, 0, s.len() as int),
        decreases hi - lo,
    {
        let mid = lo + (hi - lo) / 2;
        assert(s[mid as int].key == es@[mid as int].key@);
        proof {
            crate::keyorder::lemma_lex_irreflexive(key@);
        }
        match compare_keys(es[mid].key.as_slice(), key) {
            KeyOrder::Equal => {
                return Some(mid);
            },
            KeyOrder::Less => {
                lo = mid + 1;
            },
            KeyOrder::Greater => {
                hi = mid;
            },
        }
    }
    None
}

impl SSTable {
    /// Builds a table as [`SSTable::build`] does, stamped with the current time in
    /// seconds since the UNIX epoch. The stamp depends on the clock; everything
    /// else is as `build` states.
    pub fn create(entries: Vec<Entry>, file_number: u64, level: usize, block_size: usize) -> (r: Result<
        (Vec<u8>, SSTableMetadata),
        InvalidData,
    >)
        requires
            inline_only(entry_views(entries@)),
            total_size(entry_views(entries@)) <= usize::MAX,
            entries@.len() * BLOOM_BITS_PER_KEY + 7 <= usize::MAX,
        ensures
            match r {
                Ok((bytes, meta)) => entries@.len() > 0 && bytes@ == table_image(entry_views(entries@), block_size as int)
                    && meta@ == table_metadata(entry_views(entries@), file_number, level, bytes@.len(), meta.created_at),
                Err(e) => entries@.len() == 0 && e.text() == "Cannot create SSTable from empty entries"@,
            },
    {
        let now = crate::lsm::metrics::current_timestamp();
        Self::build(entries, file_number, level, block_size, now)
    }

    /// Looks `key` up in the table file `data`.
    pub fn get(data: &[u8], key: &[u8]) -> (r: Result<Option<Entry>, InvalidData>)
        requires
            !(read_table_spec(data@, key@) is Panics),
        ensures
            match (r, read_table_spec(data@, key@)) {
                (Ok(Some(e)), TableRead::Found(x)) => e@ == x,
                (Ok(None), TableRead::Absent) => true,
                (Err(e), TableRead::Failed(m)) => e.text() == m,
                _ => false,
            },
    {
        let footer = match read_footer(data) {
            Ok(f) => f,
            Err(e) => return Err(e),
        };
        let bloom_data = match slice_block(data, footer.meta_index_handle) {
            Ok(b) => b,
            Err(e) => return Err(e),
        };
        let bloom = match BloomFilter::decode(bloom_data) {
            Ok(b) => b,
            Err(e) => return Err(e),
        };
        if !bloom.may_contain(key) {
            return Ok(None);
        }
        let index_data = match slice_block(data, footer.index_handle) {
            Ok(b) => b,
            Err(e) => return Err(e),
        };
        let index = match IndexBlock::decode(index_data) {
            Ok(i) => i,
            Err(e) => return Err(e),
        };
        let handle = match index.find_block(key) {
            Some(h) => *h,
            None => return Ok(None),
        };
        let block_data = match slice_block(data, handle) {
            Ok(b) => b,
            Err(e) => return Err(e),
        };
        let block = match DataBlock::decode(block_data) {
            Ok(b) => b,
            Err(e) => return Err(e),
        };
        proof {
            lemma_entry_search_range(entry_views(block.entries@), key@, 0, block.entries@.len() as int);
        }
        match search_entries(&block.entries, key) {
            Some(j) => {
                assert(entry_views(block.entries@)[j as int] == block.entries@[j as int]@);
                Ok(Some(block.entries[j].duplicate()))
            },
            None => Ok(None),
        }
    }

    /// Opens the table file `data` for reading: reads its footer and index.
    pub fn open_index(data: &[u8]) -> (r: Result<IndexBlock, InvalidData>)
        requires
            !(index_of_table(data@) is Overrun),
        ensures
            match (r, index_of_table(data@)) {
                (Ok(i), IndexParse::Parsed(s)) => i.view_entries() == s,
                (Err(e), IndexParse::Failed(m)) => e.text() == m,
                _ => false,
            },
    {
        let footer = match read_footer(data) {
            Ok(f) => f,
            Err(e) => return Err(e),
        };
        let index_data = match slice_block(data, footer.index_handle) {
            Ok(b) => b,
            Err(e) => return Err(e),
        };
        IndexBlock::decode(index_data)
    }

    /// Opens an iterator over the entries of the table file `data`: reads the footer
    /// and the index now, and each data block when the iterator reaches it.
    pub fn iter(data: &[u8]) -> (r: Result<SSTableIterator, InvalidData>)
        requires
            !(index_of_table(data@) is Overrun),
        ensures
            match (r, index_of_table(data@)) {
                (Ok(it), IndexParse::Parsed(s)) => {
                    &&& it.wf()
                    &&& it.data_view() == data@
                    &&& it.index_view() == s
                    &&& it.block_idx() == 0
                    &&& it.block_view().len() == 0
                    &&& it.entry_idx() == 0
                    &&& it.rest() == scan_blocks(data@, s, s.len() as int)
                },
                (Err(e), IndexParse::Failed(m)) => e.text() == m,
                _ => false,
            },
    {
        let index = match Self::open_index(data) {
            Ok(i) => i,
            Err(e) => return Err(e),
        };
        let it = SSTableIterator {
            data: copy_slice(data),
            index,
            current_block_idx: 0,
            current_block: Vec::new(),
            current_entry_idx: 0,
        };
        proof {
            let s = it.index_view();
            lemma_scan_split(data@, s, 0);
            assert(entry_views(it.current_block@).skip(0) =~= Seq::<EntryView>::empty());
            lemma_scan_then_empty(scan_blocks_from(data@, s, 0));
        }
        Ok(it)
    }
}

/// A copy of `d`.
fn copy_slice(d: &[u8]) -> (r: Vec<u8>)
    ensures
        r@ == d@,
{
    let mut out: Vec<u8> = Vec::with_capacity(d.len());
    let mut i: usize = 0;
    while i < d.len()
        invariant
            i <= d@.len(),
            out@ == d@.take(i as int),
        decreases d@.len() - i,
    {
        out.push(d[i]);
        i = i + 1;
        assert(out@ =~= d@.take(i as int));
    }
    assert(d@.take(i as int) =~= d@);
    out
}

/// Reading the data blocks from the `i`-th index entry to the last, in order.
pub open spec fn scan_blocks_from(d: Seq<u8>, s: Seq<IndexEntryView>, i: int) -> TableScan
    decreases s.len() - i,
{
    if i < 0 || i >= s.len() {
        TableScan::Entries(Seq::empty())
    } else {
        match block_at(d, s[i].1) {
            None => TableScan::Failed(outside_text()),
            Some(b) => match decode_block_spec(b) {
                BlockParse::Parsed(es, _) => match scan_blocks_from(d, s, i + 1) {
                    TableScan::Entries(rest) => TableScan::Entries(es + rest),
                    other => other,
                },
                BlockParse::Failed(m) => TableScan::Failed(m),
                BlockParse::Overrun => TableScan::Panics,
            },
        }
    }
}

/// Entries `es` read first, then what `then` reads; a failure stops the reading.
pub open spec fn scan_then(es: Seq<EntryView>, then: TableScan) -> TableScan {
    match then {
        TableScan::Entries(rest) => TableScan::Entries(es + rest),
        other => other,
    }
}

/// What an iterator whose current block is spent meets next, reading blocks from
/// the `i`-th index entry on.
pub enum BlockStep {
    /// No block is left.
    End,
    /// The `.0`-th block, the first that holds entries, with its entries.
    Block(int, Seq<EntryView>),
    /// A block cannot be read.
    Failed(Seq<char>),
    /// Reading would index out of bounds.
    Panics,
}

/// The first block from the `i`-th index entry on that holds entries; blocks
/// without entries are passed over.
pub open spec fn next_block_spec(d: Seq<u8>, s: Seq<IndexEntryView>, i: int) -> BlockStep
    decreases s.len() - i,
{
    if i < 0 || i >= s.len() {
        BlockStep::End
    } else {
        match block_at(d, s[i].1) {
            None => BlockStep::Failed(outside_text()),
            Some(b) => match decode_block_spec(b) {
                BlockParse::Parsed(es, _) => if es.len() > 0 {
                    BlockStep::Block(i, es)
                } else {
                    next_block_spec(d, s, i + 1)
                },
                BlockParse::Failed(m) => BlockStep::Failed(m),
                BlockParse::Overrun => BlockStep::Panics,
            },
        }
    }
}

/// Iterator over the entries of a table file, reading one data block at a time.
pub struct SSTableIterator {
    data: Vec<u8>,
    index: IndexBlock,
    current_block_idx: usize,
    current_block: Vec<Entry>,
    current_entry_idx: usize,
}

impl SSTableIterator {
    /// The table file.
    pub closed spec fn data_view(&self) -> Seq<u8> {
        self.data@
    }

    /// The table's index.
    pub closed spec fn index_view(&self) -> Seq<IndexEntryView> {
        self.index.view_entries()
    }

    /// How many index entries have been read.
    pub closed spec fn block_idx(&self) -> int {
        self.current_block_idx as int
    }

    /// The entries of the block read last.
    pub closed spec fn block_view(&self) -> Seq<EntryView> {
        entry_views(self.current_block@)
    }

    /// How many entries of the block read last have been handed out.
    pub closed spec fn entry_idx(&self) -> int {
        self.current_entry_idx as int
    }

    /// The positions lie within the index and the current block.
    pub closed spec fn wf(&self) -> bool {
        &&& self.current_entry_idx <= self.current_block@.len()
        &&& self.current_block_idx <= self.index.entries@.len()
    }

    /// What the iterator has still to hand out: the rest of the current block, then
    /// the blocks not read yet.
    pub open spec fn rest(&self) -> TableScan {
        scan_then(self.block_view().skip(self.entry_idx()), scan_blocks_from(self.data_view(), self.index_view(), self.block_idx()))
    }

    /// The next entry: from the current block while it has entries, else from the
    /// next block that holds entries; `None` at the end of the table. When a block
    /// cannot be read, the error is returned and the iterator stays before that
    /// block, so that the next call fails the same way.
    pub fn next(&mut self) -> (r: Option<Result<Entry, InvalidData>>)
        requires
            old(self).wf(),
            old(self).entry_idx() >= old(self).block_view().len() ==> !(next_block_spec(
                old(self).data_view(),
                old(self).index_view(),
                old(self).block_idx(),
            ) is Panics),
        ensures
            final(self).wf(),
            final(self).data_view() == old(self).data_view(),
            final(self).index_view() == old(self).index_view(),
            old(self).entry_idx() < old(self).block_view().len() ==> {
                &&& r matches Some(Ok(e)) && e@ == old(self).block_view()[old(self).entry_idx()]
                &&& final(self).block_view() == old(self).block_view()
                &&& final(self).entry_idx() == old(self).entry_idx() + 1
                &&& final(self).block_idx() == old(self).block_idx()
            },
            old(self).entry_idx() >= old(self).block_view().len() ==> match next_block_spec(
                old(self).data_view(),
                old(self).index_view(),
                old(self).block_idx(),
            ) {
                BlockStep::End => {
                    &&& r is None
                    &&& final(self).entry_idx() >= final(self).block_view().len()
                    &&& next_block_spec(final(self).data_view(), final(self).index_view(), final(self).block_idx()) is End
                },
                BlockStep::Failed(m) => {
                    &&& r matches Some(Err(x)) && x.text() == m
                    &&& final(self).entry_idx() >= final(self).block_view().len()
                    &&& final(self).block_idx() >= old(self).block_idx()
                    &&& next_block_spec(final(self).data_view(), final(self).index_view(), final(self).block_idx())
                        == BlockStep::Failed(m)
                },
                BlockStep::Block(j, es) => {
                    &&& r matches Some(Ok(e)) && e@ == es[0]
                    &&& final(self).block_view() == es
                    &&& final(self).entry_idx() == 1
                    &&& final(self).block_idx() == j + 1
                },
                BlockStep::Panics => false,
            },
    {
        if self.current_entry_idx < self.current_block.len() {
            let e = self.current_block[self.current_entry_idx].duplicate();
            assert(self.block_view()[self.entry_idx()] == self.current_block@[self.entry_idx()]@);
            self.current_entry_idx = self.current_entry_idx + 1;
            return Some(Ok(e));
        }
        let ghost d = self.data@;
        let ghost s = self.index.view_entries();
        let ghost start = self.current_block_idx as int;
        let n = self.index.entries.len();
        let mut bi = self.current_block_idx;
        while bi < n
            invariant
                *self == *old(self),
                old(self).wf(),
                start == old(self).current_block_idx as int,
                d == self.data@,
                s == self.index.view_entries(),
                s.len() == n,
                n == self.index.entries@.len(),
                start <= bi <= n,
                self.current_entry_idx >= self.current_block@.len(),
                next_block_spec(d, s, bi as int) == next_block_spec(d, s, start),
                !(next_block_spec(d, s, start) is Panics),
            decreases n - bi,
        {
            let handle = self.index.entries[bi].1;
            assert(handle == s[bi as int].1);
            let block_data = match slice_block(self.data.as_slice(), handle) {
                Ok(b) => b,
                Err(e) => {
                    assert(block_at(d, s[bi as int].1) is None);
                    assert(next_block_spec(d, s, bi as int) == BlockStep::Failed(outside_text()));
                    self.current_block_idx = bi;
                    return Some(Err(e));
                },
            };
            let block = match DataBlock::decode(block_data) {
                Ok(b) => b,
                Err(e) => {
                    self.current_block_idx = bi;
                    return Some(Err(e));
                },
            };
            if block.entries.len() > 0 {
                let first = block.entries[0].duplicate();
                assert(entry_views(block.entries@)[0] == block.entries@[0]@);
                self.current_block = block.entries;
                self.current_entry_idx = 1;
                self.current_block_idx = bi + 1;
                return Some(Ok(first));
            }
            bi = bi + 1;
        }
        self.current_block_idx = bi;
        None
    }

    /// Every entry the iterator has still to hand out, in order, or the first error.
    pub fn collect_entries(self) -> (r: Result<Vec<Entry>, InvalidData>)
        requires
            self.wf(),
            !(self.rest() is Panics),
        ensures
            match (r, self.rest()) {
                (Ok(v), TableScan::Entries(es)) => entry_views(v@) == es,
                (Err(e), TableScan::Failed(m)) => e.text() == m,
                _ => false,
            },
    {
        let ghost target = self.rest();
        let ghost d = self.data_view();
        let ghost s = self.index_view();
        let mut it = self;
        let mut out: Vec<Entry> = Vec::new();
        assert(entry_views(out@) =~= Seq::<EntryView>::empty());
        proof {
            lemma_scan_then_empty(it.rest());
        }
        loop
            invariant
                it.wf(),
                it.data_view() == d,
                it.index_view() == s,
                0 <= it.block_idx() <= s.len(),
                0 <= it.entry_idx() <= it.block_view().len(),
                scan_then(entry_views(out@), it.rest()) == target,
                target == self.rest(),
                !(it.rest() is Panics),
                !(target is Panics),
            decreases s.len() - it.block_idx(), it.block_view().len() - it.entry_idx(),
        {
            let ghost before = it;
            let ghost bv = before.block_view().skip(before.entry_idx());
            proof {
                lemma_next_block(d, s, before.block_idx());
                if before.entry_idx() >= before.block_view().len() {
                    assert(bv =~= Seq::<EntryView>::empty());
                    lemma_scan_then_empty(scan_blocks_from(d, s, before.block_idx()));
                }
            }
            match it.next() {
                None => {
                    proof {
                        assert(before.rest() == TableScan::Entries(Seq::<EntryView>::empty()));
                        assert(entry_views(out@) + Seq::<EntryView>::empty() =~= entry_views(out@));
                    }
                    return Ok(out);
                },
                Some(Err(e)) => {
                    proof {
                        assert(before.rest() == TableScan::Failed(e.text()));
                    }
                    return Err(e);
                },
                Some(Ok(e)) => {
                    let ghost prev = entry_views(out@);
                    proof {
                        if before.entry_idx() < before.block_view().len() {
                            assert(bv =~= seq![e@] + it.block_view().skip(it.entry_idx()));
                        } else {
                            let es = it.block_view();
                            assert(es =~= seq![e@] + es.skip(1));
                            lemma_scan_then_assoc(seq![e@], es.skip(1), scan_blocks_from(d, s, it.block_idx()));
                        }
                        lemma_scan_then_assoc(seq![e@], it.block_view().skip(it.entry_idx()), scan_blocks_from(d, s, it.block_idx()));
                        lemma_scan_then_assoc(prev, seq![e@], it.rest());
                    }
                    out.push(e);
                    assert(entry_views(out@) =~= prev + seq![e@]);
                },
            }
        }
    }
}

/// Reading nothing first changes nothing.
proof fn lemma_scan_then_empty(t: TableScan)
    ensures
        scan_then(Seq::empty(), t) == t,
{
    if let TableScan::Entries(rest) = t {
        assert(Seq::<EntryView>::empty() + rest =~= rest);
    }
}

/// Reading `a`, then `b`, then `t` is reading `a + b`, then `t`.
proof fn lemma_scan_then_assoc(a: Seq<EntryView>, b: Seq<EntryView>, t: TableScan)
    ensures
        scan_then(a, scan_then(b, t)) == scan_then(a + b, t),
{
    if let TableScan::Entries(rest) = t {
        assert(a + (b + rest) =~= (a + b) + rest);
    }
}

/// Reading the first `i` blocks, then the others, is reading them all.
proof fn lemma_scan_split(d: Seq<u8>, s: Seq<IndexEntryView>, i: int)
    requires
        0 <= i <= s.len(),
    ensures
        scan_blocks(d, s, s.len() as int) == match scan_blocks(d, s, i) {
            TableScan::Entries(acc) => scan_then(acc, scan_blocks_from(d, s, i)),
            other => other,
        },
    decreases s.len() - i,
{
    if i == s.len() {
        if let TableScan::Entries(acc) = scan_blocks(d, s, i) {
            assert(acc + Seq::<EntryView>::empty() =~= acc);
        }
    } else {
        lemma_scan_split(d, s, i + 1);
        if let TableScan::Entries(acc) = scan_blocks(d, s, i) {
            match block_at(d, s[i].1) {
                None => {},
                Some(b) => match decode_block_spec(b) {
                    BlockParse::Parsed(es, _) => {
                        lemma_scan_then_assoc(acc, es, scan_blocks_from(d, s, i + 1));
                    },
                    _ => {},
                },
            }
        }
    }
}

/// What the next block holds, followed by the blocks after it, is what the blocks
/// from `i` on hold.
proof fn lemma_next_block(d: Seq<u8>, s: Seq<IndexEntryView>, i: int)
    requires
        0 <= i,
    ensures
        match next_block_spec(d, s, i) {
            BlockStep::End => scan_blocks_from(d, s, i) == TableScan::Entries(Seq::empty()),
            BlockStep::Failed(m) => scan_blocks_from(d, s, i) == TableScan::Failed(m),
            BlockStep::Panics => scan_blocks_from(d, s, i) == TableScan::Panics,
            BlockStep::Block(j, es) => i <= j < s.len() && scan_blocks_from(d, s, i) == scan_then(es, scan_blocks_from(d, s, j + 1)),
        },
    decreases s.len() - i,
{
    if i < s.len() {
        match block_at(d, s[i].1) {
            None => {},
            Some(b) => match decode_block_spec(b) {
                BlockParse::Parsed(es, _) => {
                    if es.len() == 0 {
                        lemma_next_block(d, s, i + 1);
                        lemma_scan_then_empty(scan_blocks_from(d, s, i + 1));
                        assert(es =~= Seq::<EntryView>::empty());
                    }
                },
                _ => {},
            },
        }
    }
}

/// A search that finds an entry finds it within the bounds searched.
proof fn lemma_entry_search_range(es: Seq<EntryView>, key: Seq<u8>, lo: int, hi: int)
    ensures
        entry_search(es, key, lo, hi) matches Some(j) ==> lo <= j < hi,
    decreases hi - lo,
{
    if lo < hi {
        let mid = lo + (hi - lo) / 2;
        lemma_entry_search_range(es, key, mid + 1, hi);
        lemma_entry_search_range(es, key, lo, mid);
    }
}

/// The entry for `key` in the first of `files` whose lookup finds one; files whose
/// lookup fails or finds nothing are passed over.
pub open spec fn first_table_hit(files: Seq<Seq<u8>>, key: Seq<u8>, i: int) -> Option<EntryView>
    decreases files.len() - i,
{
    if i < 0 || i >= files.len() {
        None
    } else {
        match read_table_spec(files[i], key) {
            TableRead::Found(e) => Some(e),
            _ => first_table_hit(files, key, i + 1),
        }
    }
}

/// Views of a list of files.
pub open spec fn file_views(files: Seq<Vec<u8>>) -> Seq<Seq<u8>> {
    files.map_values(|f: Vec<u8>| f@)
}

/// Looks `key` up in table files in order, newest first: the first entry found
/// wins, and a file that cannot be read is passed over.
pub fn search_tables(files: &Vec<Vec<u8>>, key: &[u8]) -> (r: Option<Entry>)
    requires
        forall|i: int| 0 <= i < files@.len() ==> !(read_table_spec(#[trigger] files@[i]@, key@) is Panics),
    ensures
        match first_table_hit(file_views(files@), key@, 0) {
            Some(x) => r matches Some(e) && e@ == x,
            None => r is None,
        },
{
    let ghost fv = file_views(files@);
    let mut i: usize = 0;
    while i < files.len()
        invariant
            fv == file_views(files@),
            fv.len() == files@.len(),
            i <= files@.len(),
            forall|q: int| 0 <= q < files@.len() ==> !(read_table_spec(#[trigger] files@[q]@, key@) is Panics),
            first_table_hit(fv, key@, 0) == first_table_hit(fv, key@, i as int),
        decreases files@.len() - i,
    {
        assert(fv[i as int] == files@[i as int]@);
        match SSTable::get(files[i].as_slice(), key) {
            Ok(Some(e)) => {
                return Some(e);
            },
            _ => {},
        }
        i = i + 1;
    }
    None
}

} // verus!
