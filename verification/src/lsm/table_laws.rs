//! What reading a table file gives back of the entries it was built from.
use vstd::prelude::*;
use crate::keyorder::{lemma_lex_irreflexive, lemma_lex_transitive, lex_lt};
use crate::lsm::block_codec::{as_read, inline_only, lemma_block_roundtrip, lengths_fit, stored_value};
use crate::lsm::compactor::{batch_ok, cut_batches, lemma_cut_batches};
use crate::lsm::memtable::{keys_sorted, lemma_total_size_ge_elem, EntryView, MemTable};
use crate::lsm::sstable::{
    bit_set, decode_bloom_spec, decode_index_spec, filter_admits, fnv1a, footer_bytes, hash_count, index_bytes,
    index_keys_sorted, index_search, lemma_bloom_roundtrip, lemma_footer_roundtrip, lemma_index_roundtrip,
    lemma_index_search_sorted, lemma_probe_bit_bound, probe_bit, probed, BlockHandle, IndexEntryView, IndexParse,
    FOOTER_SIZE,
};
use crate::lsm::table::{
    block_at, block_image, blocks_image, bloom_bits, bloom_len, entry_search, footer_of, keys_of, lemma_bloom_bits_built,
    read_block_for, read_table_spec, restarts_for, scan_blocks, scan_table_spec, table_bloom, table_footer, table_image, table_index,
    TableRead, TableScan, BLOOM_BITS_PER_KEY,
};

verus! {

/// Where batch `b` starts among the entries laid end to end.
pub open spec fn batch_start(bs: Seq<Seq<EntryView>>, b: int) -> int {
    bs.take(b).flatten().len() as int
}

/// Entry `t` of batch `b` is entry `batch_start(b) + t` of the whole.
proof fn lemma_batch_entry(bs: Seq<Seq<EntryView>>, b: int)
    requires
        0 <= b < bs.len(),
    ensures
        batch_start(bs, b + 1) == batch_start(bs, b) + bs[b].len(),
        batch_start(bs, b + 1) <= bs.flatten().len(),
        forall|t: int| 0 <= t < bs[b].len() ==> bs.flatten()[batch_start(bs, b) + t] == #[trigger] bs[b][t],
{
    assert(bs.take(b + 1) =~= bs.take(b).push(bs[b]));
    bs.take(b).lemma_flatten_push(bs[b]);
    assert(bs =~= bs.take(b + 1) + bs.skip(b + 1));
    vstd::seq_lib::lemma_flatten_concat(bs.take(b + 1), bs.skip(b + 1));
    assert forall|t: int| 0 <= t < bs[b].len() implies bs.flatten()[batch_start(bs, b) + t] == #[trigger] bs[b][t] by {
        assert((bs.take(b).flatten() + bs[b])[batch_start(bs, b) + t] == bs[b][t]);
    }
}

/// Batch starts only grow.
proof fn lemma_batch_start_monotone(bs: Seq<Seq<EntryView>>, a: int, b: int)
    requires
        0 <= a <= b <= bs.len(),
    ensures
        batch_start(bs, a) <= batch_start(bs, b),
    decreases b - a,
{
    if a < b {
        lemma_batch_start_monotone(bs, a, b - 1);
        lemma_batch_entry(bs, b - 1);
    }
}

/// The batch, at or after `b`, that holds entry `g` of the whole.
proof fn lemma_locate(bs: Seq<Seq<EntryView>>, g: int, b: int) -> (r: (int, int))
    requires
        0 <= b <= bs.len(),
        batch_start(bs, b) <= g < bs.flatten().len(),
    ensures
        b <= r.0 < bs.len(),
        0 <= r.1 < bs[r.0].len(),
        g == batch_start(bs, r.0) + r.1,
    decreases bs.len() - b,
{
    if b == bs.len() {
        assert(bs.take(b) =~= bs);
        assert(false);
        (0, 0)
    } else {
        lemma_batch_entry(bs, b);
        if g < batch_start(bs, b + 1) {
            (b, g - batch_start(bs, b))
        } else {
            lemma_locate(bs, g, b + 1)
        }
    }
}

/// The index of the blocks: one entry per block, with its last key and location.
proof fn lemma_table_index(bs: Seq<Seq<EntryView>>)
    ensures
        table_index(bs).len() == bs.len(),
        forall|b: int| 0 <= b < bs.len() ==> #[trigger] table_index(bs)[b] == (
            bs[b].last().key,
            BlockHandle {
                offset: blocks_image(bs.take(b)).len() as u64,
                size: block_image(bs[b]).len() as u64,
            },
        ),
    decreases bs.len(),
{
    if bs.len() > 0 {
        let dl = bs.drop_last();
        lemma_table_index(dl);
        assert forall|b: int| 0 <= b < bs.len() implies #[trigger] table_index(bs)[b] == (
            bs[b].last().key,
            BlockHandle {
                offset: blocks_image(bs.take(b)).len() as u64,
                size: block_image(bs[b]).len() as u64,
            },
        ) by {
            if b < bs.len() - 1 {
                assert(dl.take(b) =~= bs.take(b));
                assert(dl[b] == bs[b]);
            } else {
                assert(dl =~= bs.take(b));
            }
        }
    }
}

/// The blocks of a prefix of the batches begin the blocks of all of them.
proof fn lemma_blocks_prefix(bs: Seq<Seq<EntryView>>, m: int)
    requires
        0 <= m <= bs.len(),
    ensures
        blocks_image(bs.take(m)).len() <= blocks_image(bs).len(),
        blocks_image(bs).subrange(0, blocks_image(bs.take(m)).len() as int) == blocks_image(bs.take(m)),
    decreases bs.len() - m,
{
    if m == bs.len() {
        assert(bs.take(m) =~= bs);
        assert(blocks_image(bs).subrange(0, blocks_image(bs).len() as int) =~= blocks_image(bs));
    } else {
        lemma_blocks_prefix(bs, m + 1);
        assert(bs.take(m + 1).drop_last() =~= bs.take(m));
        assert(bs.take(m + 1).last() == bs[m]);
        let a = blocks_image(bs.take(m));
        let big = blocks_image(bs.take(m + 1));
        assert(big == a + block_image(bs[m]));
        assert(blocks_image(bs).subrange(0, a.len() as int) =~= big.subrange(0, a.len() as int));
        assert(big.subrange(0, a.len() as int) =~= a);
    }
}

/// Block `b` lies in the file where the index says.
proof fn lemma_block_location(bs: Seq<Seq<EntryView>>, rest: Seq<u8>, b: int)
    requires
        0 <= b < bs.len(),
        blocks_image(bs).len() + rest.len() <= u64::MAX,
    ensures
        block_at(blocks_image(bs) + rest, table_index(bs)[b].1) == Some(block_image(bs[b])),
{
    lemma_table_index(bs);
    lemma_blocks_prefix(bs, b + 1);
    assert(bs.take(b + 1).drop_last() =~= bs.take(b));
    assert(bs.take(b + 1).last() == bs[b]);
    let a = blocks_image(bs.take(b));
    let big = blocks_image(bs.take(b + 1));
    let d = blocks_image(bs) + rest;
    let h = table_index(bs)[b].1;
    assert(h.offset == a.len());
    assert(h.size == block_image(bs[b]).len());
    assert(d.subrange(a.len() as int, big.len() as int) =~= big.subrange(a.len() as int, big.len() as int));
    assert(big.subrange(a.len() as int, big.len() as int) =~= block_image(bs[b]));
}

/// Facts about the batches of a table that reading it relies on.
proof fn lemma_batches(es: Seq<EntryView>, block_size: int)
    requires
        inline_only(es),
        lengths_fit(es),
        es.len() <= u32::MAX,
    ensures
        cut_batches(es, block_size).flatten() == es,
        forall|b: int| 0 <= b < cut_batches(es, block_size).len() ==> {
            &&& batch_ok(#[trigger] cut_batches(es, block_size)[b], block_size)
            &&& inline_only(cut_batches(es, block_size)[b])
            &&& lengths_fit(cut_batches(es, block_size)[b])
            &&& cut_batches(es, block_size)[b].len() <= u32::MAX
        },
{
    let bs = cut_batches(es, block_size);
    lemma_cut_batches(es, block_size);
    assert forall|b: int| 0 <= b < bs.len() implies {
        &&& inline_only(#[trigger] bs[b])
        &&& lengths_fit(bs[b])
        &&& bs[b].len() <= u32::MAX
    } by {
        lemma_batch_entry(bs, b);
        assert forall|t: int| 0 <= t < bs[b].len() implies (#[trigger] bs[b][t]) == es[batch_start(bs, b) + t] by {}
        assert(batch_start(bs, b) >= 0);
    }
}

/// The blocks of the first `n` index entries read back as the first `n` batches.
proof fn lemma_scan_blocks(bs: Seq<Seq<EntryView>>, rest: Seq<u8>, n: int)
    requires
        0 <= n <= bs.len(),
        blocks_image(bs).len() + rest.len() <= u64::MAX,
        forall|b: int| 0 <= b < bs.len() ==> {
            &&& inline_only(#[trigger] bs[b])
            &&& lengths_fit(bs[b])
            &&& bs[b].len() <= u32::MAX
        },
    ensures
        scan_blocks(blocks_image(bs) + rest, table_index(bs), n) == TableScan::Entries(
            bs.take(n).flatten().map_values(|e: EntryView| as_read(e)),
        ),
    decreases n,
{
    let d = blocks_image(bs) + rest;
    if n == 0 {
        assert(bs.take(0) =~= Seq::<Seq<EntryView>>::empty());
        assert(bs.take(0).flatten().map_values(|e: EntryView| as_read(e)) =~= Seq::<EntryView>::empty());
    } else {
        lemma_scan_blocks(bs, rest, n - 1);
        lemma_block_location(bs, rest, n - 1);
        let b = bs[n - 1];
        assert(restarts_for(b.len()).len() <= u32::MAX);
        lemma_block_roundtrip(b, restarts_for(b.len()));
        assert(bs.take(n) =~= bs.take(n - 1).push(b));
        bs.take(n - 1).lemma_flatten_push(b);
        assert(bs.take(n).flatten().map_values(|e: EntryView| as_read(e)) =~= bs.take(n - 1).flatten().map_values(
            |e: EntryView| as_read(e),
        ) + b.map_values(|e: EntryView| as_read(e)));
    }
}

/// Reading every entry of a table built from `es` gives back `es`, in order and
/// without commit timestamps.
#[verifier::rlimit(60)]
pub proof fn lemma_table_scan_roundtrip(es: Seq<EntryView>, block_size: int)
    requires
        inline_only(es),
        lengths_fit(es),
        es.len() <= u32::MAX,
        table_image(es, block_size).len() <= u64::MAX,
    ensures
        scan_table_spec(table_image(es, block_size)) == TableScan::Entries(es.map_values(|e: EntryView| as_read(e))),
{
    let bs = cut_batches(es, block_size);
    lemma_batches(es, block_size);
    let data = blocks_image(bs);
    let bloom = table_bloom(es);
    let s = table_index(bs);
    let index = index_bytes(s);
    let f = table_footer(data.len(), bloom.len(), index.len());
    let d = table_image(es, block_size);
    assert(d == data + bloom + index + footer_bytes(f));
    lemma_footer_roundtrip(f);
    assert(d.subrange(d.len() - FOOTER_SIZE, d.len() as int) =~= footer_bytes(f));
    assert(footer_of(d) == Ok::<_, Seq<char>>(f));
    assert(d.subrange((data.len() + bloom.len()) as int, (data.len() + bloom.len() + index.len()) as int) =~= index);
    assert(block_at(d, f.index_handle) == Some(index));
    lemma_table_index(bs);
    assert forall|i: int| 0 <= i < s.len() implies (#[trigger] s[i]).0.len() <= u64::MAX by {
        lemma_batch_entry(bs, i);
        assert(batch_ok(bs[i], block_size));
        assert(bs[i].last() == bs[i][bs[i].len() - 1]);
        assert(bs[i][bs[i].len() - 1] == es[batch_start(bs, i) + bs[i].len() - 1]);
    }
    lemma_index_roundtrip(s);
    assert(decode_index_spec(index) == IndexParse::Parsed(s));
    assert(d == data + (bloom + index + footer_bytes(f)));
    lemma_scan_blocks(bs, bloom + index + footer_bytes(f), bs.len() as int);
    assert(bs.take(bs.len() as int) =~= bs);
}


/// A search that finds an entry finds one with the key sought, within the bounds.
proof fn lemma_entry_search_found(es: Seq<EntryView>, key: Seq<u8>, lo: int, hi: int)
    ensures
        entry_search(es, key, lo, hi) matches Some(j) ==> lo <= j < hi && es[j].key == key,
    decreases hi - lo,
{
    if lo < hi {
        let mid = lo + (hi - lo) / 2;
        lemma_entry_search_found(es, key, mid + 1, hi);
        lemma_entry_search_found(es, key, lo, mid);
    }
}

/// In entries with strictly increasing keys, the search finds the entry holding `key`.
proof fn lemma_entry_search_sorted(es: Seq<EntryView>, key: Seq<u8>, lo: int, hi: int, t: int)
    requires
        keys_sorted(es),
        0 <= lo <= t < hi <= es.len(),
        es[t].key == key,
    ensures
        entry_search(es, key, lo, hi) == Some(t),
    decreases hi - lo,
{
    let mid = lo + (hi - lo) / 2;
    lemma_lex_irreflexive(key);
    if es[mid].key == key {
        if mid != t {
            if mid < t {
                assert(lex_lt(es[mid].key, es[t].key));
            } else {
                assert(lex_lt(es[t].key, es[mid].key));
            }
        }
    } else if lex_lt(es[mid].key, key) {
        if t <= mid {
            if t < mid {
                assert(lex_lt(es[t].key, es[mid].key));
                lemma_lex_transitive(key, es[mid].key, key);
            }
        }
        lemma_entry_search_sorted(es, key, mid + 1, hi, t);
    } else {
        if t > mid {
            assert(lex_lt(es[mid].key, es[t].key));
        }
        lemma_entry_search_sorted(es, key, lo, mid, t);
    }
}

/// The last key of batch `b` is entry `batch_start(b + 1) - 1` of the whole.
proof fn lemma_last_key(bs: Seq<Seq<EntryView>>, block_size: int, b: int)
    requires
        0 <= b < bs.len(),
        batch_ok(bs[b], block_size),
    ensures
        batch_start(bs, b) < batch_start(bs, b + 1),
        bs[b].last() == bs.flatten()[batch_start(bs, b + 1) - 1],
{
    lemma_batch_entry(bs, b);
    assert(bs[b].last() == bs[b][bs[b].len() - 1]);
}

/// The requirements of the table laws on the entries.
pub open spec fn table_fits(es: Seq<EntryView>, block_size: int) -> bool {
    &&& es.len() > 0
    &&& inline_only(es)
    &&& lengths_fit(es)
    &&& es.len() <= u32::MAX
    &&& es.len() * 10 + 7 <= u64::MAX
    &&& table_image(es, block_size).len() <= u64::MAX
}

/// The bloom filter bits of a table built from `es`.
pub open spec fn table_bits(es: Seq<EntryView>) -> Seq<u8> {
    bloom_bits(hash_count(BLOOM_BITS_PER_KEY as int), keys_of(es), bloom_len(es.len()))
}

/// A lookup in a built table reads the footer and filter as written, then the
/// index as written.
#[verifier::rlimit(60)]
proof fn lemma_read_table_layout(es: Seq<EntryView>, block_size: int, key: Seq<u8>)
    requires
        table_fits(es, block_size),
    ensures
        read_table_spec(table_image(es, block_size), key) == if !filter_admits(
            table_bits(es),
            hash_count(BLOOM_BITS_PER_KEY as int),
            key,
        ) {
            TableRead::Absent
        } else {
            let s = table_index(cut_batches(es, block_size));
            let r = index_search(s, key, 0, s.len() as int);
            if r >= s.len() {
                TableRead::Absent
            } else {
                read_block_for(table_image(es, block_size), s[r].1, key)
            }
        },
{
    let bs = cut_batches(es, block_size);
    lemma_batches(es, block_size);
    let data = blocks_image(bs);
    let k = hash_count(BLOOM_BITS_PER_KEY as int);
    let len = bloom_len(es.len());
    let bits = table_bits(es);
    let bloom = table_bloom(es);
    let s = table_index(bs);
    let index = index_bytes(s);
    let f = table_footer(data.len(), bloom.len(), index.len());
    let d = table_image(es, block_size);
    assert(d == data + bloom + index + footer_bytes(f));
    lemma_footer_roundtrip(f);
    assert(d.subrange(d.len() - FOOTER_SIZE, d.len() as int) =~= footer_bytes(f));
    assert(footer_of(d) == Ok::<_, Seq<char>>(f));
    assert(d.subrange(data.len() as int, (data.len() + bloom.len()) as int) =~= bloom);
    assert(block_at(d, f.meta_index_handle) == Some(bloom));
    assert(k == 6);
    assert(len >= 2);
    lemma_bloom_bits_built(k, keys_of(es), len);
    lemma_bloom_roundtrip(k, bits);
    assert(decode_bloom_spec(bloom) == Ok::<(int, Seq<u8>), Seq<char>>((k, bits)));
    assert(bits.len() == len);
    assert(d.subrange((data.len() + bloom.len()) as int, (data.len() + bloom.len() + index.len()) as int) =~= index);
    assert(block_at(d, f.index_handle) == Some(index));
    lemma_index_keys(es, block_size);
    lemma_index_roundtrip(s);
    assert(decode_index_spec(index) == IndexParse::Parsed(s));
}

/// The index of a built table: its keys fit and strictly increase.
proof fn lemma_index_keys(es: Seq<EntryView>, block_size: int)
    requires
        inline_only(es),
        lengths_fit(es),
        es.len() <= u32::MAX,
    ensures
        forall|i: int| 0 <= i < table_index(cut_batches(es, block_size)).len() ==> (#[trigger] table_index(
            cut_batches(es, block_size),
        )[i]).0.len() <= u64::MAX,
        keys_sorted(es) ==> index_keys_sorted(table_index(cut_batches(es, block_size))),
{
    let bs = cut_batches(es, block_size);
    lemma_batches(es, block_size);
    let s = table_index(bs);
    lemma_table_index(bs);
    assert(bs.take(bs.len() as int) =~= bs);
    assert forall|i: int| 0 <= i < s.len() implies (#[trigger] s[i]).0.len() <= u64::MAX by {
        lemma_last_key(bs, block_size, i);
        lemma_batch_start_monotone(bs, i + 1, bs.len() as int);
    }
    if keys_sorted(es) {
        assert forall|a: int, b: int| 0 <= a < b < s.len() implies lex_lt(#[trigger] s[a].0, #[trigger] s[b].0) by {
            lemma_last_key(bs, block_size, a);
            lemma_last_key(bs, block_size, b);
            lemma_batch_start_monotone(bs, a + 1, b);
            lemma_batch_start_monotone(bs, b + 1, bs.len() as int);
        }
    }
}

/// Looking up a key that entry `g` holds finds entry `g`.
#[verifier::rlimit(60)]
proof fn lemma_lookup_present(es: Seq<EntryView>, block_size: int, key: Seq<u8>, g: int)
    requires
        table_fits(es, block_size),
        keys_sorted(es),
        0 <= g < es.len(),
        es[g].key == key,
    ensures
        read_table_spec(table_image(es, block_size), key) == TableRead::Found(as_read(es[g])),
{
    let bs = cut_batches(es, block_size);
    lemma_batches(es, block_size);
    lemma_read_table_layout(es, block_size, key);
    lemma_index_keys(es, block_size);
    let k = hash_count(BLOOM_BITS_PER_KEY as int);
    let len = bloom_len(es.len());
    let bits = table_bits(es);
    lemma_bloom_bits_built(k, keys_of(es), len);
    let nbits = (len * 8) as u64;
    assert(bits.len() == len);
    assert forall|j: int| 0 <= j < k implies bit_set(bits, #[trigger] probe_bit(fnv1a(key), j, nbits) as int) by {
        lemma_probe_bit_bound(fnv1a(key), j, nbits);
        assert(keys_of(es)[g] == key);
        assert(probed(fnv1a(keys_of(es)[g]), k, nbits, probe_bit(fnv1a(key), j, nbits) as int));
    }
    assert(filter_admits(bits, k, key));
    let s = table_index(bs);
    lemma_table_index(bs);
    assert(bs.take(bs.len() as int) =~= bs);
    let r = index_search(s, key, 0, s.len() as int);
    lemma_index_search_sorted(s, key, 0, s.len() as int);
    let (b, t) = lemma_locate(bs, g, 0);
    lemma_batch_entry(bs, b);
    assert(es[g] == bs[b][t]);
    assert forall|j: int| 0 <= j < b implies lex_lt(#[trigger] s[j].0, key) by {
        lemma_last_key(bs, block_size, j);
        lemma_batch_start_monotone(bs, j + 1, b);
    }
    assert(!lex_lt(s[b].0, key)) by {
        lemma_last_key(bs, block_size, b);
        lemma_batch_start_monotone(bs, b + 1, bs.len() as int);
        let last = batch_start(bs, b + 1) - 1;
        lemma_lex_irreflexive(key);
        if last > g {
            assert(lex_lt(es[g].key, es[last].key));
            if lex_lt(s[b].0, key) {
                lemma_lex_transitive(key, s[b].0, key);
            }
        }
    }
    assert(r == b);
    let data = blocks_image(bs);
    let bloom = table_bloom(es);
    let index = index_bytes(s);
    let rest = bloom + index + footer_bytes(table_footer(data.len(), bloom.len(), index.len()));
    assert(table_image(es, block_size) == data + rest);
    lemma_block_location(bs, rest, b);
    let blk = bs[b];
    lemma_block_roundtrip(blk, restarts_for(blk.len()));
    let mapped = blk.map_values(|e: EntryView| as_read(e));
    assert forall|x: int, y: int| 0 <= x < y < mapped.len() implies lex_lt(#[trigger] mapped[x].key, #[trigger] mapped[y].key) by {
        assert(blk[x] == es[batch_start(bs, b) + x]);
        assert(blk[y] == es[batch_start(bs, b) + y]);
    }
    lemma_entry_search_sorted(mapped, key, 0, mapped.len() as int, t);
}

/// The index search stays within its bounds.
proof fn lemma_index_search_range(s: Seq<IndexEntryView>, key: Seq<u8>, lo: int, hi: int)
    requires
        lo <= hi,
    ensures
        lo <= index_search(s, key, lo, hi) <= hi,
    decreases hi - lo,
{
    if lo < hi {
        let mid = lo + (hi - lo) / 2;
        lemma_index_search_range(s, key, mid + 1, hi);
        lemma_index_search_range(s, key, lo, mid);
    }
}

/// Looking up a key that no entry holds finds nothing.
#[verifier::rlimit(60)]
proof fn lemma_lookup_absent(es: Seq<EntryView>, block_size: int, key: Seq<u8>)
    requires
        table_fits(es, block_size),
        forall|g: int| 0 <= g < es.len() ==> #[trigger] es[g].key != key,
    ensures
        read_table_spec(table_image(es, block_size), key) == TableRead::Absent,
{
    let bs = cut_batches(es, block_size);
    lemma_batches(es, block_size);
    lemma_read_table_layout(es, block_size, key);
    let s = table_index(bs);
    lemma_table_index(bs);
    let r = index_search(s, key, 0, s.len() as int);
    lemma_index_search_range(s, key, 0, s.len() as int);
    if filter_admits(table_bits(es), hash_count(BLOOM_BITS_PER_KEY as int), key) && r < s.len() {
        assert(0 <= r < bs.len());
        let data = blocks_image(bs);
        let bloom = table_bloom(es);
        let index = index_bytes(s);
        let rest = bloom + index + footer_bytes(table_footer(data.len(), bloom.len(), index.len()));
        assert(table_image(es, block_size) == data + rest);
        lemma_block_location(bs, rest, r);
        let blk = bs[r];
        lemma_block_roundtrip(blk, restarts_for(blk.len()));
        let mapped = blk.map_values(|e: EntryView| as_read(e));
        lemma_entry_search_found(mapped, key, 0, mapped.len() as int);
        if let Some(j) = entry_search(mapped, key, 0, mapped.len() as int) {
            lemma_batch_entry(bs, r);
            assert(bs.take(bs.len() as int) =~= bs);
            assert(blk[j] == es[batch_start(bs, r) + j]);
            assert(es[batch_start(bs, r) + j].key == key);
        }
    }
}

/// Looking a key up in a table built from entries with strictly increasing keys
/// finds the entry of that key, without its commit timestamp, or nothing when no
/// entry has that key.
pub proof fn lemma_table_lookup(es: Seq<EntryView>, block_size: int, key: Seq<u8>)
    requires
        table_fits(es, block_size),
        keys_sorted(es),
    ensures
        forall|g: int| 0 <= g < es.len() && #[trigger] es[g].key == key ==> read_table_spec(
            table_image(es, block_size),
            key,
        ) == TableRead::Found(as_read(es[g])),
        (forall|g: int| 0 <= g < es.len() ==> #[trigger] es[g].key != key) ==> read_table_spec(
            table_image(es, block_size),
            key,
        ) == TableRead::Absent,
{
    assert forall|g: int| 0 <= g < es.len() && #[trigger] es[g].key == key implies read_table_spec(
        table_image(es, block_size),
        key,
    ) == TableRead::Found(as_read(es[g])) by {
        lemma_lookup_present(es, block_size, key, g);
    }
    if forall|g: int| 0 <= g < es.len() ==> #[trigger] es[g].key != key {
        lemma_lookup_absent(es, block_size, key);
    }
}


/// A memtable written out as a table reads back what it holds: looking a key up
/// finds the memtable's entry for it, without its commit timestamp, or nothing
/// when the memtable has no entry for it.
pub proof fn lemma_flush_then_read(m: MemTable, block_size: int, key: Seq<u8>)
    requires
        m.wf(),
        m@.len() > 0,
        m@.len() <= u32::MAX,
        table_image(m@, block_size).len() <= u64::MAX,
    ensures
        read_table_spec(table_image(m@, block_size), key) == if m.contents().contains_key(key) {
            TableRead::Found(as_read(m.contents()[key]))
        } else {
            TableRead::Absent
        },
{
    m.lemma_wf();
    let es = m@;
    assert forall|i: int| 0 <= i < es.len() implies {
        &&& (#[trigger] es[i]).key.len() <= u64::MAX
        &&& (stored_value(es[i]) matches Some(d) ==> d.len() <= u64::MAX)
    } by {
        lemma_total_size_ge_elem(es, i);
    }
    assert(lengths_fit(es));
    lemma_table_lookup(es, block_size, key);
    if m.contents().contains_key(key) {
        let g = choose|g: int| 0 <= g < es.len() && es[g].key == key;
        assert(es[g].key == key);
    } else {
        assert forall|g: int| 0 <= g < es.len() implies #[trigger] es[g].key != key by {
            if es[g].key == key {
                assert(m.contents().contains_key(es[g].key));
            }
        }
    }
}

} // verus!
