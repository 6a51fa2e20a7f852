//! The byte format of SSTable data blocks.
//!
//! A block's payload holds its entries, each with its key sharing a prefix
//! with the previous key (except at every sixteenth entry, a restart point),
//! then the restart points and their count. The stored block is a compression
//! tag, the payload and a CRC-32C of both. Blocks are written uncompressed.
use vstd::prelude::*;
use vstd::bytes::*;
use vstd::string::StringExecFns;
use crate::codec::{append_bytes, copy_range, crc_mismatch, crc_mismatch_text, invalid_data, push_u32_le, read_u32_le, u32_at, InvalidData};
use crate::integrity::{crc32c, crc32c_checksum};
use crate::lsm::memtable::{Entry, EntryView, ValueLocation, ValueView, entry_views, inline_value_view};
use crate::lsm::sstable::{DataBlock, RESTART_INTERVAL, varint_error, varint_error_text};
use crate::lsm::varint::{read_varint, read_varint_spec, varint_bytes, write_varint, VarintError, lemma_varint_roundtrip};
use crate::text::{dec_digits, push_dec};

verus! {

/// The compression tag of an uncompressed block.
pub const NO_COMPRESSION: u8 = 0;

/// Length of the common prefix of `a` and `b` from position `i` on, as a
/// left-to-right scan finds it.
pub open spec fn prefix_from(a: Seq<u8>, b: Seq<u8>, i: int) -> int
    decreases a.len() - i,
{
    if i < 0 || i >= a.len() || i >= b.len() || a[i] != b[i] {
        i
    } else {
        prefix_from(a, b, i + 1)
    }
}

/// Length of the longest common prefix of `a` and `b`.
pub open spec fn common_prefix(a: Seq<u8>, b: Seq<u8>) -> int {
    prefix_from(a, b, 0)
}

proof fn lemma_prefix_from(a: Seq<u8>, b: Seq<u8>, i: int)
    requires
        0 <= i <= a.len(),
        i <= b.len(),
        a.subrange(0, i) == b.subrange(0, i),
    ensures
        i <= prefix_from(a, b, i) <= a.len(),
        prefix_from(a, b, i) <= b.len(),
        a.subrange(0, prefix_from(a, b, i)) == b.subrange(0, prefix_from(a, b, i)),
    decreases a.len() - i,
{
    if i >= a.len() || i >= b.len() || a[i] != b[i] {
    } else {
        assert(a.subrange(0, i + 1) =~= a.subrange(0, i).push(a[i]));
        assert(b.subrange(0, i + 1) =~= b.subrange(0, i).push(b[i]));
        lemma_prefix_from(a, b, i + 1);
    }
}

/// The common prefix is a prefix of both.
pub proof fn lemma_common_prefix(a: Seq<u8>, b: Seq<u8>)
    ensures
        0 <= common_prefix(a, b) <= a.len(),
        common_prefix(a, b) <= b.len(),
        a.subrange(0, common_prefix(a, b)) == b.subrange(0, common_prefix(a, b)),
{
    assert(a.subrange(0, 0) =~= b.subrange(0, 0));
    lemma_prefix_from(a, b, 0);
}

/// Length of the common prefix of two keys.
pub fn common_prefix_len(a: &[u8], b: &[u8]) -> (r: usize)
    ensures
        r == common_prefix(a@, b@),
{
    let mut i: usize = 0;
    while i < a.len() && i < b.len() && a[i] == b[i]
        invariant
            i <= a@.len(),
            i <= b@.len(),
            prefix_from(a@, b@, i as int) == common_prefix(a@, b@),
        decreases a@.len() - i,
    {
        i = i + 1;
    }
    i
}

/// The value bytes stored for an entry: its inline value, none for a deletion.
pub open spec fn stored_value(e: EntryView) -> Option<Seq<u8>> {
    match e.value {
        Some(ValueView::Inline(d)) => Some(d),
        _ => None,
    }
}

/// Every entry holds an inline value or is a deletion.
pub open spec fn inline_only(es: Seq<EntryView>) -> bool {
    forall|i: int| 0 <= i < es.len() ==> !(#[trigger] es[i].value matches Some(ValueView::Blob(_)))
}

/// The bytes of one entry, its key sharing `shared` bytes with the previous key.
pub open spec fn entry_record(shared: int, e: EntryView) -> Seq<u8> {
    let v = stored_value(e);
    let vlen: int = match v {
        Some(d) => d.len() as int,
        None => 0,
    };
    varint_bytes(shared as u64) + varint_bytes((e.key.len() - shared) as u64) + varint_bytes(vlen as u64) + varint_bytes(
        e.sequence,
    ) + e.key.skip(shared) + match v {
        Some(d) => seq![1u8] + d,
        None => seq![0u8],
    }
}

/// Bytes shared by entry `i`'s key with the previous key: none at a restart
/// point (every sixteenth entry), the common prefix otherwise.
pub open spec fn shared_at(es: Seq<EntryView>, i: int) -> int {
    if i % 16 == 0 || i == 0 {
        0
    } else {
        common_prefix(es[i - 1].key, es[i].key)
    }
}

/// The bytes of entry `i`.
pub open spec fn entry_bytes_at(es: Seq<EntryView>, i: int) -> Seq<u8> {
    entry_record(shared_at(es, i), es[i])
}

/// The bytes of the first `n` entries.
pub open spec fn entries_upto(es: Seq<EntryView>, n: int) -> Seq<u8>
    decreases n,
{
    if n <= 0 {
        Seq::empty()
    } else {
        entries_upto(es, n - 1) + entry_bytes_at(es, n - 1)
    }
}

/// The bytes of the restart points, each four bytes little-endian.
pub open spec fn restart_bytes(rps: Seq<u32>) -> Seq<u8>
    decreases rps.len(),
{
    if rps.len() == 0 {
        Seq::empty()
    } else {
        restart_bytes(rps.drop_last()) + spec_u32_to_le_bytes(rps.last())
    }
}

/// A block's payload: its entries, its restart points and their count.
pub open spec fn block_payload(es: Seq<EntryView>, rps: Seq<u32>) -> Seq<u8> {
    entries_upto(es, es.len() as int) + restart_bytes(rps) + spec_u32_to_le_bytes(rps.len() as u32)
}

/// A stored block: compression tag, payload, and the CRC-32C of both.
pub open spec fn framed_block(tag: u8, payload: Seq<u8>) -> Seq<u8> {
    seq![tag] + payload + spec_u32_to_le_bytes(crc32c(seq![tag] + payload))
}

/// Appends the bytes of entry `e`, whose key shares `shared` bytes with the
/// previous key.
fn encode_entry(buf: &mut Vec<u8>, shared: usize, e: &Entry)
    requires
        shared <= e.key@.len(),
        !(e@.value matches Some(ValueView::Blob(_))),
    ensures
        final(buf)@ == old(buf)@ + entry_record(shared as int, e@),
{
    let vlen: usize = match &e.value {
        Some(ValueLocation::Inline(d)) => d.len(),
        _ => 0,
    };
    write_varint(buf, shared as u64);
    write_varint(buf, (e.key.len() - shared) as u64);
    write_varint(buf, vlen as u64);
    write_varint(buf, e.sequence);
    append_bytes(buf, vstd::slice::slice_subrange(e.key.as_slice(), shared, e.key.len()));
    match &e.value {
        Some(ValueLocation::Inline(d)) => {
            buf.push(1u8);
            append_bytes(buf, d.as_slice());
        },
        _ => {
            buf.push(0u8);
        },
    }
    assert(e.key@.subrange(shared as int, e.key@.len() as int) =~= e@.key.skip(shared as int));
    assert(buf@ =~= old(buf)@ + entry_record(shared as int, e@));
}

/// Outcome of parsing a block's entries.
pub enum EntryParse {
    Parsed(Seq<EntryView>),
    Failed(Seq<char>),
    /// A length runs past the data or the previous key (the parser would index
    /// out of bounds).
    Overrun,
}

/// The entry a parse yields: a key, a value or deletion, a sequence number,
/// uncommitted.
pub open spec fn parsed_entry(key: Seq<u8>, value: Option<Seq<u8>>, sequence: u64) -> EntryView {
    EntryView { key, value: inline_value_view(value), sequence, commit_ts: None }
}

/// `e` followed by the outcome `p`.
pub open spec fn prepend_entry(e: EntryView, p: EntryParse) -> EntryParse {
    match p {
        EntryParse::Parsed(rest) => EntryParse::Parsed(seq![e] + rest),
        other => other,
    }
}

/// Parsing entries from `p` at `c` while `c` is before `end`, the previous key
/// being `prev`.
pub open spec fn parse_entries(p: Seq<u8>, c: int, end: int, prev: Seq<u8>) -> EntryParse
    decreases p.len() - c,
{
    if c < 0 || c >= end {
        EntryParse::Parsed(Seq::empty())
    } else {
        match read_varint_spec(p.skip(c)) {
            Err(e) => EntryParse::Failed(varint_error_text(e)),
            Ok((shared, n1)) => {
                let c1 = c + n1;
                match read_varint_spec(p.skip(c1)) {
                    Err(e) => EntryParse::Failed(varint_error_text(e)),
                    Ok((unshared, n2)) => {
                        let c2 = c1 + n2;
                        match read_varint_spec(p.skip(c2)) {
                            Err(e) => EntryParse::Failed(varint_error_text(e)),
                            Ok((vlen, n3)) => {
                                let c3 = c2 + n3;
                                match read_varint_spec(p.skip(c3)) {
                                    Err(e) => EntryParse::Failed(varint_error_text(e)),
                                    Ok((sequence, n4)) => {
                                        let c4 = c3 + n4;
                                        if shared > prev.len() || c4 + unshared >= p.len() {
                                            EntryParse::Overrun
                                        } else {
                                            let key = prev.subrange(0, shared as int) + p.subrange(c4, c4 + unshared);
                                            let c5 = c4 + unshared;
                                            if p[c5] == 1 {
                                                if c5 + 1 + vlen > p.len() {
                                                    EntryParse::Overrun
                                                } else {
                                                    let e = parsed_entry(key, Some(p.subrange(c5 + 1, c5 + 1 + vlen)), sequence);
                                                    proof {
                                                        crate::lsm::sstable::lemma_read_varint_len(p.skip(c));
                                                        crate::lsm::sstable::lemma_read_varint_len(p.skip(c1));
                                                        crate::lsm::sstable::lemma_read_varint_len(p.skip(c2));
                                                        crate::lsm::sstable::lemma_read_varint_len(p.skip(c3));
                                                    }
                                                    prepend_entry(e, parse_entries(p, c5 + 1 + vlen, end, key))
                                                }
                                            } else {
                                                let e = parsed_entry(key, None, sequence);
                                                proof {
                                                    crate::lsm::sstable::lemma_read_varint_len(p.skip(c));
                                                    crate::lsm::sstable::lemma_read_varint_len(p.skip(c1));
                                                    crate::lsm::sstable::lemma_read_varint_len(p.skip(c2));
                                                    crate::lsm::sstable::lemma_read_varint_len(p.skip(c3));
                                                }
                                                prepend_entry(e, parse_entries(p, c5 + 1, end, key))
                                            }
                                        }
                                    },
                                }
                            },
                        }
                    },
                }
            },
        }
    }
}

/// `acc` followed by the outcome `p`.
pub open spec fn prepend_all(acc: Seq<EntryView>, p: EntryParse) -> EntryParse {
    match p {
        EntryParse::Parsed(rest) => EntryParse::Parsed(acc + rest),
        other => other,
    }
}

/// Reads a varint of `p` at `c`.
fn varint_at(p: &[u8], c: usize) -> (r: Result<(u64, usize), VarintError>)
    requires
        c <= p@.len(),
    ensures
        match (r, read_varint_spec(p@.skip(c as int))) {
            (Ok((v, n)), Ok((sv, sn))) => v == sv && n == sn && 1 <= n <= p@.len() - c,
            (Err(e), Err(se)) => e == se,
            _ => false,
        },
{
    let rest = vstd::slice::slice_subrange(p, c, p.len());
    assert(rest@ =~= p@.skip(c as int));
    proof { crate::lsm::sstable::lemma_read_varint_len(p@.skip(c as int)); }
    read_varint(rest)
}

/// Parses the entries of a payload up to the restart points at `ro`.
fn parse_entries_exec(p: &[u8], ro: usize) -> (r: Result<Vec<Entry>, InvalidData>)
    requires
        ro <= p@.len(),
        !(parse_entries(p@, 0, ro as int, Seq::empty()) is Overrun),
    ensures
        match (r, parse_entries(p@, 0, ro as int, Seq::empty())) {
            (Ok(es), EntryParse::Parsed(s)) => entry_views(es@) == s,
            (Err(e), EntryParse::Failed(m)) => e.text() == m,
            _ => false,
        },
{
    let ghost whole = parse_entries(p@, 0, ro as int, Seq::empty());
    let plen = p.len();
    let mut entries: Vec<Entry> = Vec::new();
    let mut prev: Vec<u8> = Vec::new();
    let mut cursor: usize = 0;
    assert(prepend_all(Seq::empty(), whole) == whole) by {
        match whole {
            EntryParse::Parsed(rest) => {
                assert(Seq::<EntryView>::empty() + rest =~= rest);
            },
            _ => {},
        }
    }
    while cursor < ro
        invariant
            ro <= p@.len(),
            cursor <= p@.len(),
            plen == p@.len(),
            whole == parse_entries(p@, 0, ro as int, Seq::empty()),
            !(whole is Overrun),
            prepend_all(entry_views(entries@), parse_entries(p@, cursor as int, ro as int, prev@)) == whole,
        decreases p@.len() - cursor,
    {
        let ghost acc = entry_views(entries@);
        let ghost here = parse_entries(p@, cursor as int, ro as int, prev@);
        let r_n1 = varint_at(p, cursor);
        if let Err(e) = r_n1 {
            return Err(varint_error(e));
        }
        let (shared, n1) = r_n1.unwrap();
        assert(n1 <= p@.len() - cursor);
        let c1 = cursor + n1;
        let r_n2 = varint_at(p, c1);
        if let Err(e) = r_n2 {
            return Err(varint_error(e));
        }
        let (unshared, n2) = r_n2.unwrap();
        assert(n2 <= p@.len() - c1);
        let c2 = c1 + n2;
        let r_n3 = varint_at(p, c2);
        if let Err(e) = r_n3 {
            return Err(varint_error(e));
        }
        let (vlen, n3) = r_n3.unwrap();
        assert(n3 <= p@.len() - c2);
        let c3 = c2 + n3;
        let r_n4 = varint_at(p, c3);
        if let Err(e) = r_n4 {
            return Err(varint_error(e));
        }
        let (sequence, n4) = r_n4.unwrap();
        assert(n4 <= p@.len() - c3);
        let c4 = c3 + n4;
        assert(!(shared > prev@.len() || c4 + unshared >= p@.len())) by {
            if shared > prev@.len() || c4 + unshared >= p@.len() {
                assert(here is Overrun);
            }
        }
        let prev_len = prev.len();
        assert(shared <= prev_len);
        let sh = shared as usize;
        let un = unshared as usize;
        assert(sh == shared && un == unshared);
        let mut key = copy_range(prev.as_slice(), 0, sh);
        append_bytes(&mut key, vstd::slice::slice_subrange(p, c4, c4 + un));
        let c5 = c4 + un;
        let ghost k = prev@.subrange(0, shared as int) + p@.subrange(c4 as int, c5 as int);
        assert(key@ =~= k);
        if p[c5] == 1 {
            assert(!(c5 + 1 + vlen > p@.len())) by {
                if c5 + 1 + vlen > p@.len() {
                    assert(here is Overrun);
                }
            }
            let value = copy_range(p, c5 + 1, c5 + 1 + vlen as usize);
            let e = Entry::new(crate::lsm::memtable::copy_bytes(&key), Some(value), sequence);
            let ghost ev = parsed_entry(k, Some(p@.subrange(c5 + 1, c5 + 1 + vlen)), sequence);
            assert(e@ == ev);
            assert(here == prepend_entry(ev, parse_entries(p@, c5 + 1 + vlen, ro as int, k)));
            entries.push(e);
            cursor = c5 + 1 + vlen as usize;
        } else {
            let e = Entry::new(crate::lsm::memtable::copy_bytes(&key), None, sequence);
            let ghost ev = parsed_entry(k, None, sequence);
            assert(e@ == ev);
            assert(here == prepend_entry(ev, parse_entries(p@, c5 + 1, ro as int, k)));
            entries.push(e);
            cursor = c5 + 1;
        }
        prev = key;
        proof {
            assert(entry_views(entries@) =~= acc.push(entry_views(entries@).last()));
            match parse_entries(p@, cursor as int, ro as int, prev@) {
                EntryParse::Parsed(rest) => {
                    assert(acc.push(entry_views(entries@).last()) + rest =~= acc + (seq![entry_views(entries@).last()] + rest));
                },
                _ => {},
            }
        }
    }
    proof {
        assert(parse_entries(p@, cursor as int, ro as int, prev@) == EntryParse::Parsed(Seq::<EntryView>::empty()));
        assert(entry_views(entries@) + Seq::<EntryView>::empty() =~= entry_views(entries@));
    }
    Ok(entries)
}

/// Outcome of decoding a stored block.
pub enum BlockParse {
    Parsed(Seq<EntryView>, Seq<u32>),
    Failed(Seq<char>),
    /// The parser would index out of bounds.
    Overrun,
}

/// Decoding a stored block: its checksum is checked, then its compression tag
/// (only uncompressed blocks are read), then the restart points and entries of
/// its payload.
pub open spec fn decode_block_spec(d: Seq<u8>) -> BlockParse {
    if d.len() < 5 {
        BlockParse::Failed("Block data too short"@)
    } else {
        let body = d.subrange(0, d.len() - 4);
        let stored = u32_at(d, d.len() - 4);
        let calculated = crc32c(body);
        if calculated != stored {
            BlockParse::Failed(crc_mismatch_text("Block"@, stored, calculated))
        } else if body[0] != NO_COMPRESSION {
            BlockParse::Failed("Unsupported compression algorithm: "@ + dec_digits(body[0] as u64))
        } else {
            let p = body.skip(1);
            if p.len() < 4 {
                BlockParse::Failed("Invalid block data"@)
            } else {
                let count = u32_at(p, p.len() - 4) as int;
                if 4 + 4 * count > p.len() {
                    BlockParse::Overrun
                } else {
                    let ro = p.len() - 4 - 4 * count;
                    let rps = Seq::new(count as nat, |i: int| u32_at(p, ro + 4 * i));
                    match parse_entries(p, 0, ro, Seq::empty()) {
                        EntryParse::Parsed(es) => BlockParse::Parsed(es, rps),
                        EntryParse::Failed(m) => BlockParse::Failed(m),
                        EntryParse::Overrun => BlockParse::Overrun,
                    }
                }
            }
        }
    }
}

impl DataBlock {
    /// Encodes the block uncompressed: its payload framed with the
    /// compression tag and checksum.
    pub fn encode(&self) -> (r: Vec<u8>)
        requires
            inline_only(entry_views(self.entries@)),
        ensures
            r@ == framed_block(NO_COMPRESSION, block_payload(entry_views(self.entries@), self.restart_points@)),
    {
        let ghost es = entry_views(self.entries@);
        let mut buf: Vec<u8> = Vec::new();
        buf.push(NO_COMPRESSION);
        let mut i: usize = 0;
        while i < self.entries.len()
            invariant
                i <= self.entries@.len(),
                es == entry_views(self.entries@),
                inline_only(es),
                buf@ == seq![NO_COMPRESSION] + entries_upto(es, i as int),
            decreases self.entries@.len() - i,
        {
            let e = &self.entries[i];
            assert(es[i as int] == e@);
            let shared: usize = if i % RESTART_INTERVAL == 0 {
                0
            } else {
                common_prefix_len(self.entries[i - 1].key.as_slice(), e.key.as_slice())
            };
            proof {
                if i > 0 {
                    assert(es[i - 1] == self.entries@[i - 1]@);
                    lemma_common_prefix(es[i - 1].key, es[i as int].key);
                }
            }
            let ghost before = buf@;
            encode_entry(&mut buf, shared, e);
            proof {
                assert(shared == shared_at(es, i as int));
                assert(buf@ =~= before + entry_bytes_at(es, i as int));
            }
            i = i + 1;
        }
        let ghost rps = self.restart_points@;
        let mut j: usize = 0;
        while j < self.restart_points.len()
            invariant
                j <= rps.len(),
                rps == self.restart_points@,
                buf@ == seq![NO_COMPRESSION] + entries_upto(es, es.len() as int) + restart_bytes(rps.subrange(0, j as int)),
            decreases rps.len() - j,
        {
            push_u32_le(&mut buf, self.restart_points[j]);
            proof {
                assert(rps.subrange(0, j + 1).drop_last() =~= rps.subrange(0, j as int));
            }
            j = j + 1;
        }
        assert(rps.subrange(0, j as int) =~= rps);
        push_u32_le(&mut buf, self.restart_points.len() as u32);
        let crc = crc32c_checksum(buf.as_slice());
        proof {
            assert(buf@ =~= seq![NO_COMPRESSION] + block_payload(es, rps));
        }
        push_u32_le(&mut buf, crc);
        buf
    }

    /// Decodes a stored block, checking its checksum and compression tag.
    pub fn decode(data: &[u8]) -> (r: Result<DataBlock, InvalidData>)
        requires
            !(decode_block_spec(data@) is Overrun),
        ensures
            match (r, decode_block_spec(data@)) {
                (Ok(b), BlockParse::Parsed(es, rps)) => entry_views(b.entries@) == es && b.restart_points@ == rps,
                (Err(e), BlockParse::Failed(m)) => e.text() == m,
                _ => false,
            },
    {
        let n = data.len();
        if n < 5 {
            return Err(invalid_data("Block data too short"));
        }
        let block_data = vstd::slice::slice_subrange(data, 0, n - 4);
        let stored = read_u32_le(data, n - 4);
        let calculated = crc32c_checksum(block_data);
        if calculated != stored {
            return Err(crc_mismatch("Block", stored, calculated));
        }
        let tag = block_data[0];
        if tag != NO_COMPRESSION {
            proof {
                reveal_strlit("Unsupported compression algorithm: ");
            }
            let mut m = String::new();
            m.append("Unsupported compression algorithm: ");
            push_dec(&mut m, tag as u64);
            assert(m@ =~= "Unsupported compression algorithm: "@ + dec_digits(tag as u64));
            return Err(InvalidData { message: m });
        }
        let p = vstd::slice::slice_subrange(block_data, 1, block_data.len());
        assert(p@ =~= block_data@.skip(1));
        let m = p.len();
        if m < 4 {
            return Err(invalid_data("Invalid block data"));
        }
        let count = read_u32_le(p, m - 4) as usize;
        assert(4 + 4 * count <= m);
        let ro = m - 4 - 4 * count;
        let ghost rps = Seq::new(count as nat, |i: int| u32_at(p@, ro + 4 * i));
        let mut restart_points: Vec<u32> = Vec::new();
        let mut i: usize = 0;
        while i < count
            invariant
                i <= count,
                ro + 4 * count + 4 == m,
                m == p@.len(),
                rps == Seq::new(count as nat, |i: int| u32_at(p@, ro + 4 * i)),
                restart_points@ == rps.subrange(0, i as int),
            decreases count - i,
        {
            let point = read_u32_le(p, ro + i * 4);
            restart_points.push(point);
            i = i + 1;
            assert(restart_points@ =~= rps.subrange(0, i as int));
        }
        assert(rps.subrange(0, i as int) =~= rps);
        match parse_entries_exec(p, ro) {
            Ok(entries) => Ok(DataBlock { entries, restart_points }),
            Err(e) => Err(e),
        }
    }
}

/// How an entry reads back from a block: everything but its commit
/// timestamp, which blocks do not store.
pub open spec fn as_read(e: EntryView) -> EntryView {
    EntryView { commit_ts: None, ..e }
}

/// The key before entry `i`, empty for the first.
pub open spec fn prev_key(es: Seq<EntryView>, i: int) -> Seq<u8> {
    if i <= 0 { Seq::empty() } else { es[i - 1].key }
}

/// Keys and values are short enough for their lengths to be written.
pub open spec fn lengths_fit(es: Seq<EntryView>) -> bool {
    forall|i: int| 0 <= i < es.len() ==> {
        &&& (#[trigger] es[i]).key.len() <= u64::MAX
        &&& (stored_value(es[i]) matches Some(d) ==> d.len() <= u64::MAX)
    }
}

/// The bytes of entries `i` to `n` (excluded).
pub open spec fn entries_from(es: Seq<EntryView>, i: int, n: int) -> Seq<u8>
    decreases n - i,
{
    if i >= n {
        Seq::empty()
    } else {
        entry_bytes_at(es, i) + entries_from(es, i + 1, n)
    }
}

proof fn lemma_from_push(es: Seq<EntryView>, i: int, n: int)
    requires
        i <= n,
    ensures
        entries_from(es, i, n + 1) == entries_from(es, i, n) + entry_bytes_at(es, n),
    decreases n - i,
{
    if i == n {
        assert(entries_from(es, n + 1, n + 1) =~= Seq::<u8>::empty());
        assert(entries_from(es, i, n + 1) =~= entries_from(es, i, n) + entry_bytes_at(es, n));
    } else {
        lemma_from_push(es, i + 1, n);
        assert(entries_from(es, i, n + 1) =~= entries_from(es, i, n) + entry_bytes_at(es, n));
    }
}

proof fn lemma_upto_is_from(es: Seq<EntryView>, n: int)
    requires
        0 <= n,
    ensures
        entries_upto(es, n) == entries_from(es, 0, n),
    decreases n,
{
    if n == 0 {
        assert(entries_from(es, 0, 0) =~= Seq::<u8>::empty());
    } else {
        lemma_upto_is_from(es, n - 1);
        lemma_from_push(es, 0, n - 1);
    }
}

/// The field boundaries of an entry record laid out at `c` in `p`.
#[verifier::rlimit(40)]
proof fn lemma_record_fields(p: Seq<u8>, c: int, sh: int, e: EntryView)
    requires
        0 <= sh <= e.key.len() <= u64::MAX,
        stored_value(e) matches Some(d) ==> d.len() <= u64::MAX,
        0 <= c,
        c + entry_record(sh, e).len() <= p.len(),
        p.subrange(c, c + entry_record(sh, e).len()) == entry_record(sh, e),
    ensures
        ({
            let v = stored_value(e);
            let vlen: int = match v {
                Some(d) => d.len() as int,
                None => 0,
            };
            let c1 = c + varint_bytes(sh as u64).len();
            let c2 = c1 + varint_bytes((e.key.len() - sh) as u64).len();
            let c3 = c2 + varint_bytes(vlen as u64).len();
            let c4 = c3 + varint_bytes(e.sequence).len();
            &&& read_varint_spec(p.skip(c)) == Ok::<(u64, int), VarintError>((sh as u64, c1 - c))
            &&& read_varint_spec(p.skip(c1)) == Ok::<(u64, int), VarintError>(((e.key.len() - sh) as u64, c2 - c1))
            &&& read_varint_spec(p.skip(c2)) == Ok::<(u64, int), VarintError>((vlen as u64, c3 - c2))
            &&& read_varint_spec(p.skip(c3)) == Ok::<(u64, int), VarintError>((e.sequence, c4 - c3))
            &&& c4 + (e.key.len() - sh) < c + entry_record(sh, e).len()
            &&& p.subrange(c4, c4 + (e.key.len() - sh)) == e.key.skip(sh)
            &&& match v {
                Some(d) => p[c4 + (e.key.len() - sh)] == 1 && c4 + (e.key.len() - sh) + 1 + vlen == c + entry_record(sh, e).len()
                    && p.subrange(c4 + (e.key.len() - sh) + 1, c4 + (e.key.len() - sh) + 1 + vlen) == d,
                None => p[c4 + (e.key.len() - sh)] == 0 && c4 + (e.key.len() - sh) + 1 == c + entry_record(sh, e).len(),
            }
        }),
{
    let v = stored_value(e);
    let vlen: int = match v {
        Some(d) => d.len() as int,
        None => 0,
    };
    let b1 = varint_bytes(sh as u64);
    let b2 = varint_bytes((e.key.len() - sh) as u64);
    let b3 = varint_bytes(vlen as u64);
    let b4 = varint_bytes(e.sequence);
    let ks = e.key.skip(sh);
    let vb = match v {
        Some(d) => seq![1u8] + d,
        None => seq![0u8],
    };
    let eb = entry_record(sh, e);
    assert(eb =~= b1 + b2 + b3 + b4 + ks + vb);
    let n = eb.len() as int;
    let tail = p.skip(c + n);
    let r5 = vb + tail;
    let r4 = ks + r5;
    let r3 = b4 + r4;
    let r2 = b3 + r3;
    let r1 = b2 + r2;
    assert(p.skip(c) =~= b1 + r1) by {
        assert(p.skip(c) =~= p.subrange(c, c + n) + tail);
        assert(eb + tail =~= b1 + r1);
    }
    lemma_varint_roundtrip(sh as u64, r1);
    lemma_skip_concat(p, c, b1, r1);
    let c1 = c + b1.len();
    lemma_varint_roundtrip((e.key.len() - sh) as u64, r2);
    lemma_skip_concat(p, c1, b2, r2);
    let c2 = c1 + b2.len();
    lemma_varint_roundtrip(vlen as u64, r3);
    lemma_skip_concat(p, c2, b3, r3);
    let c3 = c2 + b3.len();
    lemma_varint_roundtrip(e.sequence, r4);
    lemma_skip_concat(p, c3, b4, r4);
    let c4 = c3 + b4.len();
    let un = e.key.len() - sh;
    assert(p.subrange(c4, c4 + un) =~= ks) by {
        assert(p.subrange(c4, c4 + un) =~= p.skip(c4).subrange(0, un));
    }
    lemma_skip_concat(p, c4, ks, r5);
    let c5 = c4 + un;
    assert(p[c5] == vb[0]) by {
        assert(p[c5] == p.skip(c5)[0]);
    }
    match v {
        Some(d) => {
            assert(p.subrange(c5 + 1, c5 + 1 + vlen) =~= d) by {
                assert(p.subrange(c5 + 1, c5 + 1 + vlen) =~= p.skip(c5).subrange(1, 1 + vlen));
            }
        },
        None => {},
    }
}

proof fn lemma_skip_concat(p: Seq<u8>, c: int, a: Seq<u8>, rest: Seq<u8>)
    requires
        0 <= c <= p.len(),
        p.skip(c) == a + rest,
    ensures
        p.skip(c + a.len()) == rest,
{
    assert(p.skip(c + a.len()) =~= p.skip(c).skip(a.len() as int));
    assert((a + rest).skip(a.len() as int) =~= rest);
}

/// Parsing an entry record laid out at `c` yields the entry as it reads back.
#[verifier::rlimit(40)]
proof fn lemma_parse_record(p: Seq<u8>, c: int, end: int, prev: Seq<u8>, sh: int, e: EntryView)
    requires
        0 <= sh <= prev.len(),
        sh <= e.key.len() <= u64::MAX,
        prev.subrange(0, sh) == e.key.subrange(0, sh),
        !(e.value matches Some(ValueView::Blob(_))),
        stored_value(e) matches Some(d) ==> d.len() <= u64::MAX,
        0 <= c,
        c + entry_record(sh, e).len() <= end <= p.len(),
        p.subrange(c, c + entry_record(sh, e).len()) == entry_record(sh, e),
    ensures
        parse_entries(p, c, end, prev) == prepend_entry(as_read(e), parse_entries(p, c + entry_record(sh, e).len(), end, e.key)),
{
    lemma_record_fields(p, c, sh, e);
    let un = e.key.len() - sh;
    assert(((e.key.len() - sh) as u64) as int == un);
    assert((sh as u64) as int == sh);
    let c4 = c + varint_bytes(sh as u64).len() + varint_bytes(un as u64).len() + varint_bytes(
        (match stored_value(e) {
            Some(d) => d.len() as int,
            None => 0int,
        }) as u64,
    ).len() + varint_bytes(e.sequence).len();
    let key = prev.subrange(0, sh) + p.subrange(c4, c4 + un);
    assert(key =~= e.key) by {
        assert(e.key =~= e.key.subrange(0, sh) + e.key.skip(sh));
    }
    match stored_value(e) {
        Some(d) => {
            assert((d.len() as u64) as int == d.len());
            assert(e.value == inline_value_view(Some(d)));
            assert(parsed_entry(key, Some(d), e.sequence) == as_read(e));
        },
        None => {
            assert(e.value is None);
            assert(parsed_entry(key, None, e.sequence) == as_read(e));
        },
    }
}

proof fn lemma_parse_step(p: Seq<u8>, c: int, end: int, es: Seq<EntryView>, i: int)
    requires
        0 <= i < es.len(),
        inline_only(es),
        lengths_fit(es),
        0 <= c,
        c + entry_bytes_at(es, i).len() <= end <= p.len(),
        p.subrange(c, c + entry_bytes_at(es, i).len()) == entry_bytes_at(es, i),
    ensures
        parse_entries(p, c, end, prev_key(es, i)) == prepend_entry(
            as_read(es[i]),
            parse_entries(p, c + entry_bytes_at(es, i).len(), end, es[i].key),
        ),
{
    let e = es[i];
    let prev = prev_key(es, i);
    let sh = shared_at(es, i);
    assert(e.key.len() <= u64::MAX);
    if i > 0 && i % 16 != 0 {
        lemma_common_prefix(es[i - 1].key, e.key);
    }
    assert(prev.subrange(0, sh) == e.key.subrange(0, sh)) by {
        if sh == 0 {
            assert(prev.subrange(0, 0) =~= e.key.subrange(0, 0));
        }
    }
    assert(!(es[i].value matches Some(ValueView::Blob(_))));
    lemma_parse_record(p, c, end, prev, sh, e);
}

proof fn lemma_parse_all(p: Seq<u8>, c: int, end: int, es: Seq<EntryView>, i: int)
    requires
        0 <= i <= es.len(),
        inline_only(es),
        lengths_fit(es),
        0 <= c,
        c + entries_from(es, i, es.len() as int).len() == end,
        end <= p.len(),
        p.subrange(c, end) == entries_from(es, i, es.len() as int),
    ensures
        parse_entries(p, c, end, prev_key(es, i)) == EntryParse::Parsed(es.subrange(i, es.len() as int).map_values(|e: EntryView| as_read(e))),
    decreases es.len() - i,
{
    if i == es.len() {
        assert(es.subrange(i, es.len() as int).map_values(|e: EntryView| as_read(e)) =~= Seq::<EntryView>::empty());
    } else {
        let eb = entry_bytes_at(es, i);
        let rest = entries_from(es, i + 1, es.len() as int);
        assert(entries_from(es, i, es.len() as int) == eb + rest);
        assert(p.subrange(c, c + eb.len()) =~= eb) by {
            assert(p.subrange(c, c + eb.len()) =~= p.subrange(c, end).subrange(0, eb.len() as int));
        }
        lemma_parse_step(p, c, end, es, i);
        assert(p.subrange(c + eb.len(), end) =~= rest) by {
            assert(p.subrange(c + eb.len(), end) =~= p.subrange(c, end).skip(eb.len() as int));
        }
        lemma_parse_all(p, c + eb.len(), end, es, i + 1);
        assert(prev_key(es, i + 1) == es[i].key);
        assert(seq![as_read(es[i])] + es.subrange(i + 1, es.len() as int).map_values(|e: EntryView| as_read(e))
            =~= es.subrange(i, es.len() as int).map_values(|e: EntryView| as_read(e)));
    }
}

proof fn lemma_restart_bytes(rps: Seq<u32>)
    ensures
        restart_bytes(rps).len() == 4 * rps.len(),
        forall|k: int| 0 <= k < rps.len() ==> #[trigger] u32_at(restart_bytes(rps), 4 * k) == rps[k],
    decreases rps.len(),
{
    lemma_auto_spec_u32_to_from_le_bytes();
    if rps.len() > 0 {
        let init = rps.drop_last();
        lemma_restart_bytes(init);
        let rb = restart_bytes(rps);
        assert forall|k: int| 0 <= k < rps.len() implies #[trigger] u32_at(rb, 4 * k) == rps[k] by {
            if k < init.len() {
                assert(rb.subrange(4 * k, 4 * k + 4) =~= restart_bytes(init).subrange(4 * k, 4 * k + 4));
                assert(u32_at(restart_bytes(init), 4 * k) == init[k]);
            } else {
                assert(rb.subrange(4 * k, 4 * k + 4) =~= spec_u32_to_le_bytes(rps.last()));
            }
        }
    }
}

/// Decoding an encoded block gives back its entries, without their commit
/// timestamps, and its restart points.
pub proof fn lemma_block_roundtrip(es: Seq<EntryView>, rps: Seq<u32>)
    requires
        inline_only(es),
        lengths_fit(es),
        rps.len() <= u32::MAX,
    ensures
        decode_block_spec(framed_block(NO_COMPRESSION, block_payload(es, rps))) == BlockParse::Parsed(
            es.map_values(|e: EntryView| as_read(e)),
            rps,
        ),
{
    lemma_auto_spec_u32_to_from_le_bytes();
    let payload = block_payload(es, rps);
    let d = framed_block(NO_COMPRESSION, payload);
    let body = seq![NO_COMPRESSION] + payload;
    assert(d.subrange(0, d.len() - 4) =~= body);
    assert(d.subrange(d.len() - 4, d.len() as int) =~= spec_u32_to_le_bytes(crc32c(body)));
    let p = body.skip(1);
    assert(p =~= payload);
    let ents = entries_upto(es, es.len() as int);
    lemma_restart_bytes(rps);
    let count = rps.len();
    assert(p.subrange(p.len() - 4, p.len() as int) =~= spec_u32_to_le_bytes(count as u32));
    assert(u32_at(p, p.len() - 4) == count);
    let ro = p.len() - 4 - 4 * count;
    assert(ro == ents.len());
    assert forall|k: int| 0 <= k < count implies u32_at(p, ro + 4 * k) == rps[k] by {
        assert(p.subrange(ro + 4 * k, ro + 4 * k + 4) =~= restart_bytes(rps).subrange(4 * k, 4 * k + 4));
        assert(u32_at(restart_bytes(rps), 4 * k) == rps[k]);
    }
    assert(Seq::new(count as nat, |k: int| u32_at(p, ro + 4 * k)) =~= rps);
    lemma_upto_is_from(es, es.len() as int);
    assert(p.subrange(0, ro) =~= ents);
    lemma_parse_all(p, 0, ro, es, 0);
    assert(es.subrange(0, es.len() as int) =~= es);
}

} // verus!
