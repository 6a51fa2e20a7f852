//! SSTable building blocks: footer, index and data blocks, and the bloom filter.
use vstd::prelude::*;
use vstd::wrapping::u64_specs::{wrapping_add, wrapping_mul};
use vstd::bytes::*;
use crate::codec::{append_bytes, copy_range, crc_mismatch, crc_mismatch_text, invalid_data, push_u32_le, push_u64_le, read_u32_le, read_u64_le, u32_at, u64_at, InvalidData};
use crate::integrity::{crc32c, crc32c_checksum};
use crate::keyorder::{key_less, lex_lt};
use crate::lsm::memtable::Entry;
use crate::lsm::varint::{lemma_varint_roundtrip, read_varint, read_varint_from, read_varint_spec, varint_bytes, write_varint, VarintError};

verus! {

/// Identifies an SSTable footer ("NANOLSMT").
pub const MAGIC_NUMBER: u64 = 0x4E414E4F4C534D54u64;

/// Format version written in footers.
pub const VERSION: u32 = 1;

/// A restart point is recorded every this many entries of a data block.
pub const RESTART_INTERVAL: usize = 16;

/// SSTable metadata.
#[derive(Debug, Clone)]
pub struct SSTableMetadata {
    pub file_number: u64,
    pub level: usize,
    pub min_key: Vec<u8>,
    pub max_key: Vec<u8>,
    pub min_sequence: u64,
    pub max_sequence: u64,
    pub entry_count: u64,
    pub file_size: u64,
    pub created_at: u64,
}

/// Mathematical value of [`SSTableMetadata`].
pub struct SSTableMetadataView {
    pub file_number: u64,
    pub level: usize,
    pub min_key: Seq<u8>,
    pub max_key: Seq<u8>,
    pub min_sequence: u64,
    pub max_sequence: u64,
    pub entry_count: u64,
    pub file_size: u64,
    pub created_at: u64,
}

impl View for SSTableMetadata {
    type V = SSTableMetadataView;

    open spec fn view(&self) -> SSTableMetadataView {
        SSTableMetadataView {
            file_number: self.file_number,
            level: self.level,
            min_key: self.min_key@,
            max_key: self.max_key@,
            min_sequence: self.min_sequence,
            max_sequence: self.max_sequence,
            entry_count: self.entry_count,
            file_size: self.file_size,
            created_at: self.created_at,
        }
    }
}

impl SSTableMetadata {
    /// An equal copy.
    pub fn duplicate(&self) -> (r: Self)
        ensures
            r@ == self@,
    {
        SSTableMetadata {
            file_number: self.file_number,
            level: self.level,
            min_key: crate::lsm::memtable::copy_bytes(&self.min_key),
            max_key: crate::lsm::memtable::copy_bytes(&self.max_key),
            min_sequence: self.min_sequence,
            max_sequence: self.max_sequence,
            entry_count: self.entry_count,
            file_size: self.file_size,
            created_at: self.created_at,
        }
    }
}

/// Views of a sequence of SSTable metadata.
pub open spec fn metadata_views(v: Seq<SSTableMetadata>) -> Seq<SSTableMetadataView> {
    v.map_values(|m: SSTableMetadata| m@)
}

/// Location of a block in the file.
#[derive(Debug, Clone, Copy, PartialEq, Eq, Structural)]
pub struct BlockHandle {
    pub offset: u64,
    pub size: u64,
}

/// SSTable footer, a fixed-size record at the end of the file.
#[derive(Debug, Clone, Copy, PartialEq, Eq, Structural)]
pub struct Footer {
    pub meta_index_handle: BlockHandle,
    pub index_handle: BlockHandle,
    pub magic: u64,
    pub version: u32,
    pub checksum: u32,
}

/// Encoded size of a footer.
pub const FOOTER_SIZE: usize = 48;

/// The 48 bytes of an encoded footer.
pub open spec fn footer_bytes(f: Footer) -> Seq<u8> {
    spec_u64_to_le_bytes(f.meta_index_handle.offset) + spec_u64_to_le_bytes(f.meta_index_handle.size)
        + spec_u64_to_le_bytes(f.index_handle.offset) + spec_u64_to_le_bytes(f.index_handle.size)
        + spec_u64_to_le_bytes(f.magic) + spec_u32_to_le_bytes(f.version) + spec_u32_to_le_bytes(f.checksum)
}

/// What decoding `d` as a footer yields.
pub open spec fn decode_footer_spec(d: Seq<u8>) -> Result<Footer, Seq<char>> {
    if d.len() != 48 {
        Err("Invalid footer size"@)
    } else if u64_at(d, 32) != MAGIC_NUMBER {
        Err("Invalid magic number"@)
    } else {
        Ok(Footer {
            meta_index_handle: BlockHandle { offset: u64_at(d, 0), size: u64_at(d, 8) },
            index_handle: BlockHandle { offset: u64_at(d, 16), size: u64_at(d, 24) },
            magic: u64_at(d, 32),
            version: u32_at(d, 40),
            checksum: u32_at(d, 44),
        })
    }
}

impl Footer {
    /// Encodes the footer into its 48 bytes.
    pub fn encode(&self) -> (r: Vec<u8>)
        ensures
            r@ == footer_bytes(*self),
            r@.len() == FOOTER_SIZE,
    {
        proof {
            lemma_auto_spec_u64_to_from_le_bytes();
            lemma_auto_spec_u32_to_from_le_bytes();
        }
        let mut buf: Vec<u8> = Vec::new();
        push_u64_le(&mut buf, self.meta_index_handle.offset);
        push_u64_le(&mut buf, self.meta_index_handle.size);
        push_u64_le(&mut buf, self.index_handle.offset);
        push_u64_le(&mut buf, self.index_handle.size);
        push_u64_le(&mut buf, self.magic);
        push_u32_le(&mut buf, self.version);
        push_u32_le(&mut buf, self.checksum);
        buf
    }

    /// Decodes a footer; fails unless `data` is 48 bytes carrying the SSTable magic number.
    pub fn decode(data: &[u8]) -> (r: Result<Self, InvalidData>)
        ensures
            match (r, decode_footer_spec(data@)) {
                (Ok(f), Ok(sf)) => f == sf,
                (Err(e), Err(msg)) => e.text() == msg,
                _ => false,
            },
    {
        if data.len() != FOOTER_SIZE {
            return Err(invalid_data("Invalid footer size"));
        }
        let magic = read_u64_le(data, 32);
        if magic != MAGIC_NUMBER {
            return Err(invalid_data("Invalid magic number"));
        }
        Ok(Footer {
            meta_index_handle: BlockHandle { offset: read_u64_le(data, 0), size: read_u64_le(data, 8) },
            index_handle: BlockHandle { offset: read_u64_le(data, 16), size: read_u64_le(data, 24) },
            magic,
            version: read_u32_le(data, 40),
            checksum: read_u32_le(data, 44),
        })
    }
}

/// Decoding an encoded footer gives it back, provided it carries the SSTable magic number.
pub proof fn lemma_footer_roundtrip(f: Footer)
    ensures
        footer_bytes(f).len() == 48,
        decode_footer_spec(footer_bytes(f)) == (if f.magic == MAGIC_NUMBER {
            Ok::<Footer, Seq<char>>(f)
        } else {
            Err::<Footer, Seq<char>>("Invalid magic number"@)
        }),
{
    lemma_auto_spec_u64_to_from_le_bytes();
    lemma_auto_spec_u32_to_from_le_bytes();
    let d = footer_bytes(f);
    assert(d.subrange(0, 8) =~= spec_u64_to_le_bytes(f.meta_index_handle.offset));
    assert(d.subrange(8, 16) =~= spec_u64_to_le_bytes(f.meta_index_handle.size));
    assert(d.subrange(16, 24) =~= spec_u64_to_le_bytes(f.index_handle.offset));
    assert(d.subrange(24, 32) =~= spec_u64_to_le_bytes(f.index_handle.size));
    assert(d.subrange(32, 40) =~= spec_u64_to_le_bytes(f.magic));
    assert(d.subrange(40, 44) =~= spec_u32_to_le_bytes(f.version));
    assert(d.subrange(44, 48) =~= spec_u32_to_le_bytes(f.checksum));
}

/// FNV-1a offset basis.
pub const FNV_OFFSET: u64 = 0xcbf29ce484222325u64;

/// FNV-1a prime.
pub const FNV_PRIME: u64 = 0x100000001b3u64;

/// The 64-bit FNV-1a hash of `key`.
pub open spec fn fnv1a(key: Seq<u8>) -> u64
    decreases key.len(),
{
    if key.len() == 0 {
        FNV_OFFSET
    } else {
        wrapping_mul(fnv1a(key.drop_last()) ^ (key.last() as u64), FNV_PRIME)
    }
}

/// Hashes a key with FNV-1a.
pub fn hash_key(key: &[u8]) -> (r: u64)
    ensures
        r == fnv1a(key@),
{
    let mut hash: u64 = FNV_OFFSET;
    let mut i: usize = 0;
    while i < key.len()
        invariant
            i <= key@.len(),
            hash == fnv1a(key@.subrange(0, i as int)),
        decreases key@.len() - i,
    {
        assert(key@.subrange(0, i + 1).drop_last() =~= key@.subrange(0, i as int));
        hash = hash ^ (key[i] as u64);
        hash = hash.wrapping_mul(FNV_PRIME);
        i = i + 1;
    }
    assert(key@.subrange(0, i as int) =~= key@);
    hash
}

/// Number of hash functions for `bits_per_key` bits per key: about 0.69 per bit,
/// at least one and at most thirty.
pub open spec fn hash_count(bits_per_key: int) -> int {
    let k = bits_per_key * 69 / 100;
    if k < 1 { 1 } else if k > 30 { 30 } else { k }
}

/// Step between successive probe positions of a key with hash `h`.
pub open spec fn probe_delta(h: u64) -> u64 {
    (h >> 17u64) | (h << 15u64)
}

/// Bit position of probe `i` for a key with hash `h` in a filter of `num_bits` bits.
#[verifier::opaque]
pub open spec fn probe_bit(h: u64, i: int, num_bits: u64) -> u64 {
    wrapping_add(h, wrapping_mul(i as u64, probe_delta(h))) % num_bits
}

/// Bit `p` of the byte array is set (bit `p % 8` of byte `p / 8`).
pub open spec fn bit_set(bits: Seq<u8>, p: int) -> bool {
    bits[p / 8] & (1u8 << ((p % 8) as u8)) != 0
}

/// One of the first `k` probes of hash `h` lands on bit `p`.
pub open spec fn probed(h: u64, k: int, num_bits: u64, p: int) -> bool {
    exists|j: int| 0 <= j < k && #[trigger] probe_bit(h, j, num_bits) == p
}

/// Every probe of `key` finds its bit set.
pub open spec fn filter_admits(bits: Seq<u8>, k: int, key: Seq<u8>) -> bool {
    forall|j: int| 0 <= j < k ==> bit_set(bits, #[trigger] probe_bit(fnv1a(key), j, (bits.len() * 8) as u64) as int)
}

proof fn lemma_set_bit(x: u8, a: u8, c: u8)
    requires
        a < 8,
        c < 8,
    ensures
        (x | (1u8 << a)) & (1u8 << c) != 0 <==> (x & (1u8 << c) != 0 || a == c),
{
    assert((x | (1u8 << a)) & (1u8 << c) != 0 <==> (x & (1u8 << c) != 0 || a == c)) by (bit_vector)
        requires
            a < 8,
            c < 8,
    ;
}

pub proof fn lemma_probe_step(old_bits: Seq<u8>, b0: Seq<u8>, b1: Seq<u8>, h: u64, i: int, n: u64, bit_pos: u64)
    requires
        0 <= i,
        0 < n,
        n == b0.len() * 8,
        b0.len() == old_bits.len(),
        bit_pos == probe_bit(h, i, n),
        bit_pos < n,
        b1 == b0.update(bit_pos as int / 8, b0[bit_pos as int / 8] | (1u8 << ((bit_pos % 8) as u8))),
        forall|p: int| 0 <= p < n ==> (#[trigger] bit_set(b0, p) <==> bit_set(old_bits, p) || probed(h, i, n, p)),
    ensures
        forall|p: int| 0 <= p < n ==> (#[trigger] bit_set(b1, p) <==> bit_set(old_bits, p) || probed(h, i + 1, n, p)),
{
    assert forall|p: int| 0 <= p < n implies (#[trigger] bit_set(b1, p) <==> bit_set(old_bits, p) || probed(h, i + 1, n, p)) by {
        assert(bit_set(b0, p) <==> bit_set(old_bits, p) || probed(h, i, n, p));
        if p / 8 == bit_pos as int / 8 {
            lemma_set_bit(b0[p / 8], (bit_pos % 8) as u8, (p % 8) as u8);
            if p % 8 == bit_pos % 8 {
                assert(p == bit_pos);
                assert(probe_bit(h, i, n) == p);
            }
        } else {
            assert(b1[p / 8] == b0[p / 8]);
        }
        if probed(h, i + 1, n, p) && !probed(h, i, n, p) {
            let j = choose|j: int| 0 <= j < i + 1 && #[trigger] probe_bit(h, j, n) == p;
            assert(j == i);
        }
        if probed(h, i, n, p) {
            let j = choose|j: int| 0 <= j < i && #[trigger] probe_bit(h, j, n) == p;
            assert(0 <= j < i + 1 && probe_bit(h, j, n) == p);
        }
    }
}

pub proof fn lemma_probe_bit_bound(h: u64, i: int, n: u64)
    requires
        0 < n,
    ensures
        probe_bit(h, i, n) < n,
{
    reveal(probe_bit);
}

/// Bit position of probe `i` of a key with hash `h`.
fn probe_position(h: u64, i: usize, num_bits: u64) -> (r: u64)
    requires
        0 < num_bits,
    ensures
        r == probe_bit(h, i as int, num_bits),
        r < num_bits,
{
    reveal(probe_bit);
    let delta = (h >> 17) | (h << 15);
    h.wrapping_add((i as u64).wrapping_mul(delta)) % num_bits
}

/// Whether bit `p` is set.
fn test_bit(bits: &Vec<u8>, p: u64) -> (r: bool)
    requires
        p < bits@.len() * 8,
    ensures
        r == bit_set(bits@, p as int),
{
    let _len = bits.len();
    let idx = (p / 8) as usize;
    let sh = (p % 8) as u8;
    assert(idx as int == p as int / 8);
    assert(sh == ((p as int % 8) as u8));
    (bits[idx] & (1u8 << sh)) != 0
}

/// Sets bit `p`.
fn set_bit(bits: &mut Vec<u8>, p: u64)
    requires
        p < old(bits)@.len() * 8,
    ensures
        final(bits)@ == old(bits)@.update(p as int / 8, old(bits)@[p as int / 8] | (1u8 << ((p % 8) as u8))),
{
    let _len = bits.len();
    let idx = (p / 8) as usize;
    let sh = (p % 8) as u8;
    let cur = bits[idx];
    bits.set(idx, cur | (1u8 << sh));
}

/// Bloom filter for fast negative lookups.
#[derive(Debug, Clone)]
pub struct BloomFilter {
    bits: Vec<u8>,
    num_hash_functions: usize,
}

impl BloomFilter {
    /// The filter's bit array.
    pub closed spec fn bit_array(&self) -> Seq<u8> {
        self.bits@
    }

    /// Number of probes per key.
    pub closed spec fn probes(&self) -> int {
        self.num_hash_functions as int
    }

    /// Whether `key` may be in the set the filter was built from.
    pub open spec fn admits(&self, key: Seq<u8>) -> bool {
        filter_admits(self.bit_array(), self.probes(), key)
    }

    /// Creates an empty filter sized for `num_keys` keys at `bits_per_key` bits each.
    pub fn new(num_keys: usize, bits_per_key: usize) -> (r: Self)
        requires
            num_keys * bits_per_key + 7 <= usize::MAX,
        ensures
            r.bit_array() == Seq::new(((num_keys * bits_per_key + 7) / 8) as nat, |i: int| 0u8),
            r.probes() == hash_count(bits_per_key as int),
    {
        let num_bits = num_keys * bits_per_key;
        let num_bytes = (num_bits + 7) / 8;
        let num_hash_functions = if bits_per_key >= 44 {
            30
        } else {
            let k = bits_per_key * 69 / 100;
            if k < 1 { 1 } else { k }
        };
        let mut bits: Vec<u8> = Vec::new();
        while bits.len() < num_bytes
            invariant
                bits@.len() <= num_bytes,
                forall|i: int| 0 <= i < bits@.len() ==> bits@[i] == 0u8,
            decreases num_bytes - bits@.len(),
        {
            bits.push(0u8);
        }
        assert(bits@ =~= Seq::new(num_bytes as nat, |i: int| 0u8));
        BloomFilter { bits, num_hash_functions }
    }

    /// Adds `key`: sets the bit of each of its probes.
    pub fn add(&mut self, key: &[u8])
        requires
            0 < old(self).bit_array().len(),
            old(self).bit_array().len() * 8 <= u64::MAX,
        ensures
            final(self).probes() == old(self).probes(),
            final(self).bit_array().len() == old(self).bit_array().len(),
            forall|p: int| 0 <= p < final(self).bit_array().len() * 8 ==> (#[trigger] bit_set(final(self).bit_array(), p)
                <==> bit_set(old(self).bit_array(), p) || probed(
                fnv1a(key@),
                old(self).probes(),
                (old(self).bit_array().len() * 8) as u64,
                p,
            )),
            final(self).admits(key@),
            forall|other: Seq<u8>| old(self).admits(other) ==> #[trigger] final(self).admits(other),
    {
        let hash = hash_key(key);
        let num_bits = self.bits.len() as u64 * 8;
        let ghost n = num_bits;
        let ghost old_bits = self.bits@;
        let ghost k = self.num_hash_functions as int;
        let mut i: usize = 0;
        while i < self.num_hash_functions
            invariant
                self.bits@.len() == old_bits.len(),
                self.num_hash_functions as int == k,
                n == num_bits,
                n == old_bits.len() * 8,
                0 < n,
                hash == fnv1a(key@),
                i <= k,
                forall|p: int| 0 <= p < n ==> (#[trigger] bit_set(self.bits@, p) <==> bit_set(old_bits, p) || probed(hash, i as int, n, p)),
            decreases k - i,
        {
            let bit_pos = probe_position(hash, i, num_bits);
            let ghost b0 = self.bits@;
            set_bit(&mut self.bits, bit_pos);
            proof {
                lemma_probe_step(old_bits, b0, self.bits@, hash, i as int, n, bit_pos);
            }
            i = i + 1;
        }
        assert forall|j: int| 0 <= j < k implies bit_set(self.bits@, #[trigger] probe_bit(hash, j, n) as int) by {
            lemma_probe_bit_bound(hash, j, n);
            assert(probed(hash, k, n, probe_bit(hash, j, n) as int));
        }
        assert forall|other: Seq<u8>| old(self).admits(other) implies #[trigger] self.admits(other) by {
            assert forall|j: int| 0 <= j < k implies bit_set(self.bits@, #[trigger] probe_bit(fnv1a(other), j, n) as int) by {
                lemma_probe_bit_bound(fnv1a(other), j, n);
                assert(bit_set(old_bits, probe_bit(fnv1a(other), j, n) as int));
            }
        }
    }

    /// Whether `key` may have been added: all bits of its probes are set.
    pub fn may_contain(&self, key: &[u8]) -> (r: bool)
        requires
            0 < self.bit_array().len(),
            self.bit_array().len() * 8 <= u64::MAX,
        ensures
            r == self.admits(key@),
    {
        let hash = hash_key(key);
        let num_bits = self.bits.len() as u64 * 8;
        let mut i: usize = 0;
        while i < self.num_hash_functions
            invariant
                num_bits == self.bits@.len() * 8,
                0 < num_bits,
                hash == fnv1a(key@),
                i <= self.num_hash_functions,
                forall|j: int| 0 <= j < i ==> bit_set(self.bits@, #[trigger] probe_bit(hash, j, num_bits) as int),
            decreases self.num_hash_functions - i,
        {
            let bit_pos = probe_position(hash, i, num_bits);
            if !test_bit(&self.bits, bit_pos) {
                assert(num_bits == (self.bits@.len() * 8) as u64);
                return false;
            }
            i = i + 1;
        }
        assert(num_bits == (self.bits@.len() * 8) as u64);
        true
    }
}

/// The encoded filter: probe count, bit array, then the CRC-32C of both.
pub open spec fn bloom_bytes(probes: int, bits: Seq<u8>) -> Seq<u8> {
    let body = seq![probes as u8] + bits;
    body + spec_u32_to_le_bytes(crc32c(body))
}

/// What decoding `d` as a bloom filter yields: probe count and bit array, or the error message.
pub open spec fn decode_bloom_spec(d: Seq<u8>) -> Result<(int, Seq<u8>), Seq<char>> {
    if d.len() < 5 {
        Err("Bloom filter data too short"@)
    } else {
        let body = d.subrange(0, d.len() - 4);
        let stored = u32_at(d, d.len() - 4);
        let calculated = crc32c(body);
        if calculated != stored {
            Err(crc_mismatch_text("Bloom filter"@, stored, calculated))
        } else {
            Ok((body[0] as int, body.subrange(1, body.len() as int)))
        }
    }
}

impl BloomFilter {
    /// Encodes the filter.
    pub fn encode(&self) -> (r: Vec<u8>)
        ensures
            r@ == bloom_bytes(self.probes(), self.bit_array()),
    {
        let mut buf: Vec<u8> = Vec::new();
        buf.push(self.num_hash_functions as u8);
        append_bytes(&mut buf, self.bits.as_slice());
        let crc = crc32c_checksum(buf.as_slice());
        push_u32_le(&mut buf, crc);
        assert(buf@ =~= bloom_bytes(self.probes(), self.bit_array()));
        buf
    }

    /// Decodes a filter, checking its checksum.
    pub fn decode(data: &[u8]) -> (r: Result<Self, InvalidData>)
        ensures
            match (r, decode_bloom_spec(data@)) {
                (Ok(f), Ok((k, bits))) => f.probes() == k && f.bit_array() == bits,
                (Err(e), Err(msg)) => e.text() == msg,
                _ => false,
            },
    {
        let n = data.len();
        if n < 5 {
            return Err(invalid_data("Bloom filter data too short"));
        }
        let body = vstd::slice::slice_subrange(data, 0, n - 4);
        let stored = read_u32_le(data, n - 4);
        let calculated = crc32c_checksum(body);
        if calculated != stored {
            return Err(crc_mismatch("Bloom filter", stored, calculated));
        }
        let num_hash_functions = body[0] as usize;
        let bits = copy_range(body, 1, body.len());
        Ok(BloomFilter { bits, num_hash_functions })
    }
}

/// Decoding an encoded filter gives back its probe count and bits.
pub proof fn lemma_bloom_roundtrip(probes: int, bits: Seq<u8>)
    requires
        0 <= probes < 256,
    ensures
        decode_bloom_spec(bloom_bytes(probes, bits)) == Ok::<(int, Seq<u8>), Seq<char>>((probes, bits)),
{
    lemma_auto_spec_u32_to_from_le_bytes();
    let body = seq![probes as u8] + bits;
    let d = bloom_bytes(probes, bits);
    assert(d.subrange(0, d.len() - 4) =~= body);
    assert(d.subrange(d.len() - 4, d.len() as int) =~= spec_u32_to_le_bytes(crc32c(body)));
    assert(body.subrange(1, body.len() as int) =~= bits);
}

/// Message of an io error reporting a bad varint.
pub open spec fn varint_error_text(e: VarintError) -> Seq<char> {
    match e {
        VarintError::TooLarge => "Varint too large"@,
        VarintError::Incomplete => "Incomplete varint"@,
    }
}

/// The error reporting a bad varint.
pub fn varint_error(e: VarintError) -> (r: InvalidData)
    ensures
        r.text() == varint_error_text(e),
{
    match e {
        VarintError::TooLarge => invalid_data("Varint too large"),
        VarintError::Incomplete => invalid_data("Incomplete varint"),
    }
}

proof fn lemma_read_varint_from_len(d: Seq<u8>, i: int, acc: u64, shift: u64)
    requires
        0 <= i,
    ensures
        read_varint_from(d, i, acc, shift) matches Ok((v, n)) ==> i < n <= d.len(),
    decreases d.len() - i,
{
    if i < d.len() {
        let b = d[i];
        if b & 0x80 != 0 && shift + 7 < 64 {
            lemma_read_varint_from_len(d, i + 1, acc | (((b & 0x7f) as u64) << shift), (shift + 7) as u64);
        }
    }
}

/// A successfully read varint takes between one byte and all of the data.
pub proof fn lemma_read_varint_len(d: Seq<u8>)
    ensures
        read_varint_spec(d) matches Ok((v, n)) ==> 1 <= n <= d.len(),
{
    lemma_read_varint_from_len(d, 0, 0, 0);
}

/// An index entry: the last key of a data block and the block's location.
pub type IndexEntryView = (Seq<u8>, BlockHandle);

/// Views of index entries.
pub open spec fn index_views(v: Seq<(Vec<u8>, BlockHandle)>) -> Seq<IndexEntryView> {
    v.map_values(|e: (Vec<u8>, BlockHandle)| (e.0@, e.1))
}

/// Keys strictly increase along the index.
pub open spec fn index_keys_sorted(s: Seq<IndexEntryView>) -> bool {
    forall|i: int, j: int| 0 <= i < j < s.len() ==> lex_lt(#[trigger] s[i].0, #[trigger] s[j].0)
}

/// Encoding of one index entry: key length, key, block offset and size.
pub open spec fn index_entry_bytes(e: IndexEntryView) -> Seq<u8> {
    varint_bytes(e.0.len() as u64) + e.0 + varint_bytes(e.1.offset) + varint_bytes(e.1.size)
}

/// Encoding of the index entries, in order.
pub open spec fn index_body(s: Seq<IndexEntryView>) -> Seq<u8>
    decreases s.len(),
{
    if s.len() == 0 {
        Seq::empty()
    } else {
        index_entry_bytes(s[0]) + index_body(s.drop_first())
    }
}

/// The encoded index block: its entries then the CRC-32C of them.
pub open spec fn index_bytes(s: Seq<IndexEntryView>) -> Seq<u8> {
    index_body(s) + spec_u32_to_le_bytes(crc32c(index_body(s)))
}

/// Outcome of parsing index entries.
pub enum IndexParse {
    Parsed(Seq<IndexEntryView>),
    Failed(Seq<char>),
    /// A key runs past the end of the data (the parser would index out of bounds).
    Overrun,
}

/// Parsing index entries from `d`, starting at `c`, up to the end of `d`.
pub open spec fn parse_index_from(d: Seq<u8>, c: int) -> IndexParse
    decreases d.len() - c,
{
    if c < 0 || c >= d.len() {
        IndexParse::Parsed(Seq::empty())
    } else {
        match read_varint_spec(d.skip(c)) {
            Err(e) => IndexParse::Failed(varint_error_text(e)),
            Ok((kl, n1)) => {
                let c1 = c + n1;
                if n1 < 1 || c1 + kl > d.len() {
                    IndexParse::Overrun
                } else {
                    let key = d.subrange(c1, c1 + kl);
                    let c2 = c1 + kl;
                    match read_varint_spec(d.skip(c2)) {
                        Err(e) => IndexParse::Failed(varint_error_text(e)),
                        Ok((off, n2)) => {
                            let c3 = c2 + n2;
                            match read_varint_spec(d.skip(c3)) {
                                Err(e) => IndexParse::Failed(varint_error_text(e)),
                                Ok((sz, n3)) => {
                                    proof {
                                        lemma_read_varint_len(d.skip(c2));
                                        lemma_read_varint_len(d.skip(c3));
                                    }
                                    match parse_index_from(d, c3 + n3) {
                                        IndexParse::Parsed(rest) => IndexParse::Parsed(
                                            seq![(key, BlockHandle { offset: off, size: sz })] + rest,
                                        ),
                                        other => other,
                                    }
                                },
                            }
                        },
                    }
                }
            },
        }
    }
}

/// `acc` followed by the outcome `p`.
pub open spec fn prepend_parse(acc: Seq<IndexEntryView>, p: IndexParse) -> IndexParse {
    match p {
        IndexParse::Parsed(rest) => IndexParse::Parsed(acc + rest),
        other => other,
    }
}

/// Outcome of decoding an index block: the CRC is checked first, then the entries parsed.
pub open spec fn decode_index_spec(d: Seq<u8>) -> IndexParse {
    if d.len() < 4 {
        IndexParse::Failed("Index block data too short"@)
    } else {
        let body = d.subrange(0, d.len() - 4);
        let stored = u32_at(d, d.len() - 4);
        let calculated = crc32c(body);
        if calculated != stored {
            IndexParse::Failed(crc_mismatch_text("Index block"@, stored, calculated))
        } else {
            parse_index_from(body, 0)
        }
    }
}

pub proof fn lemma_index_body_push(s: Seq<IndexEntryView>, x: IndexEntryView)
    ensures
        index_body(s.push(x)) == index_body(s) + index_entry_bytes(x),
    decreases s.len(),
{
    if s.len() == 0 {
        assert(s.push(x).drop_first() =~= Seq::<IndexEntryView>::empty());
        assert(index_body(s.push(x).drop_first()) == Seq::<u8>::empty());
        assert(index_body(s) == Seq::<u8>::empty());
        assert(s.push(x)[0] == x);
        assert(index_body(s.push(x)) =~= index_body(s) + index_entry_bytes(x));
    } else {
        lemma_index_body_push(s.drop_first(), x);
        assert(s.push(x).drop_first() =~= s.drop_first().push(x));
        assert(index_body(s.push(x)) =~= index_body(s) + index_entry_bytes(x));
    }
}

proof fn lemma_parse_index_step(d: Seq<u8>, c: int, e: IndexEntryView)
    requires
        0 <= c,
        e.0.len() <= u64::MAX,
        c + index_entry_bytes(e).len() <= d.len(),
        d.subrange(c, c + index_entry_bytes(e).len()) == index_entry_bytes(e),
    ensures
        parse_index_from(d, c) == prepend_parse(seq![e], parse_index_from(d, c + index_entry_bytes(e).len())),
{
    let k = e.0;
    let kl = k.len() as u64;
    let v1 = varint_bytes(kl);
    let v2 = varint_bytes(e.1.offset);
    let v3 = varint_bytes(e.1.size);
    let n = index_entry_bytes(e).len() as int;
    let tail = d.skip(c + n);
    assert(d.skip(c) =~= v1 + (k + v2 + v3 + tail)) by {
        assert(d.skip(c) =~= d.subrange(c, c + n) + tail);
    }
    lemma_varint_roundtrip(kl, k + v2 + v3 + tail);
    let c1 = c + v1.len();
    assert(d.subrange(c1, c1 + kl) =~= k) by {
        assert(d.subrange(c1, c1 + kl) =~= d.subrange(c, c + n).subrange(v1.len() as int, v1.len() + kl));
    }
    let c2 = c1 + kl;
    assert(d.skip(c2) =~= v2 + (v3 + tail)) by {
        assert(d.skip(c2) =~= d.skip(c).skip(v1.len() + kl));
    }
    lemma_varint_roundtrip(e.1.offset, v3 + tail);
    let c3 = c2 + v2.len();
    assert(d.skip(c3) =~= v3 + tail) by {
        assert(d.skip(c3) =~= d.skip(c).skip(v1.len() + kl + v2.len()));
    }
    lemma_varint_roundtrip(e.1.size, tail);
    assert(c3 + v3.len() == c + n);
    assert((k, BlockHandle { offset: e.1.offset, size: e.1.size }) == e);
}

proof fn lemma_parse_index_body(d: Seq<u8>, c: int, s: Seq<IndexEntryView>)
    requires
        0 <= c,
        forall|i: int| 0 <= i < s.len() ==> (#[trigger] s[i]).0.len() <= u64::MAX,
        d.len() == c + index_body(s).len(),
        d.skip(c) == index_body(s),
    ensures
        parse_index_from(d, c) == IndexParse::Parsed(s),
    decreases s.len(),
{
    if s.len() == 0 {
        assert(s =~= Seq::<IndexEntryView>::empty());
    } else {
        let e = s[0];
        let rest = s.drop_first();
        let n = index_entry_bytes(e).len() as int;
        assert(index_body(s) == index_entry_bytes(e) + index_body(rest));
        assert(d.subrange(c, c + n) =~= index_entry_bytes(e)) by {
            assert(d.subrange(c, c + n) =~= d.skip(c).subrange(0, n));
        }
        lemma_parse_index_step(d, c, e);
        assert forall|i: int| 0 <= i < rest.len() implies (#[trigger] rest[i]).0.len() <= u64::MAX by {
            assert(rest[i] == s[i + 1]);
        }
        assert(d.skip(c + n) =~= index_body(rest)) by {
            assert(d.skip(c + n) =~= d.skip(c).skip(n));
        }
        lemma_parse_index_body(d, c + n, rest);
        assert(seq![e] + rest =~= s);
    }
}

/// Decoding an encoded index block gives back its entries.
pub proof fn lemma_index_roundtrip(s: Seq<IndexEntryView>)
    requires
        forall|i: int| 0 <= i < s.len() ==> (#[trigger] s[i]).0.len() <= u64::MAX,
    ensures
        decode_index_spec(index_bytes(s)) == IndexParse::Parsed(s),
{
    lemma_auto_spec_u32_to_from_le_bytes();
    let body = index_body(s);
    let d = index_bytes(s);
    assert(d.subrange(0, d.len() - 4) =~= body);
    assert(d.subrange(d.len() - 4, d.len() as int) =~= spec_u32_to_le_bytes(crc32c(body)));
    assert(body.skip(0) =~= body);
    lemma_parse_index_body(body, 0, s);
}

/// Binary search of the index between `lo` and `hi`: the position of the first
/// entry whose key is not less than `key`, if the keys are sorted.
pub open spec fn index_search(s: Seq<IndexEntryView>, key: Seq<u8>, lo: int, hi: int) -> int
    decreases hi - lo,
{
    if lo >= hi {
        lo
    } else {
        let mid = lo + (hi - lo) / 2;
        if lex_lt(s[mid].0, key) {
            index_search(s, key, mid + 1, hi)
        } else {
            index_search(s, key, lo, mid)
        }
    }
}

/// On a sorted index the search finds the first entry whose key is not less than
/// `key`.
pub proof fn lemma_index_search_sorted(s: Seq<IndexEntryView>, key: Seq<u8>, lo: int, hi: int)
    requires
        index_keys_sorted(s),
        0 <= lo <= hi <= s.len(),
        forall|j: int| 0 <= j < lo ==> lex_lt(#[trigger] s[j].0, key),
        forall|j: int| hi <= j < s.len() ==> !lex_lt(#[trigger] s[j].0, key),
    ensures
        lo <= index_search(s, key, lo, hi) <= hi,
        forall|j: int| 0 <= j < index_search(s, key, lo, hi) ==> lex_lt(#[trigger] s[j].0, key),
        forall|j: int| index_search(s, key, lo, hi) <= j < s.len() ==> !lex_lt(#[trigger] s[j].0, key),
    decreases hi - lo,
{
    if lo < hi {
        let mid = lo + (hi - lo) / 2;
        if lex_lt(s[mid].0, key) {
            assert forall|j: int| 0 <= j < mid + 1 implies lex_lt(#[trigger] s[j].0, key) by {
                if lo <= j < mid {
                    crate::keyorder::lemma_lex_transitive(s[j].0, s[mid].0, key);
                }
            }
            lemma_index_search_sorted(s, key, mid + 1, hi);
        } else {
            assert forall|j: int| mid <= j < s.len() implies !lex_lt(#[trigger] s[j].0, key) by {
                if mid < j < hi && lex_lt(s[j].0, key) {
                    crate::keyorder::lemma_lex_transitive(s[mid].0, s[j].0, key);
                }
            }
            lemma_index_search_sorted(s, key, lo, mid);
        }
    }
}

/// Index block: the last key of each data block and where the block lies.
#[derive(Debug, Clone)]
pub struct IndexBlock {
    pub entries: Vec<(Vec<u8>, BlockHandle)>,
}

impl IndexBlock {
    /// The entries of the index.
    pub open spec fn view_entries(&self) -> Seq<IndexEntryView> {
        index_views(self.entries@)
    }

    /// Creates an empty index.
    pub fn new() -> (r: Self)
        ensures
            r.view_entries() == Seq::<IndexEntryView>::empty(),
    {
        let r = IndexBlock { entries: Vec::new() };
        assert(r.view_entries() =~= Seq::<IndexEntryView>::empty());
        r
    }

    /// Appends an entry for a block whose last key is `last_key`.
    pub fn add_entry(&mut self, last_key: Vec<u8>, handle: BlockHandle)
        ensures
            final(self).view_entries() == old(self).view_entries().push((last_key@, handle)),
    {
        self.entries.push((last_key, handle));
        assert(self.view_entries() =~= old(self).view_entries().push((last_key@, handle)));
    }

    /// The block that may hold `key`, found by binary search for the first entry
    /// whose last key is not less than `key`.
    pub fn find_block(&self, key: &[u8]) -> (r: Option<&BlockHandle>)
        ensures
            r == (if index_search(self.view_entries(), key@, 0, self.view_entries().len() as int) < self.view_entries().len() {
                Some(&self.view_entries()[index_search(self.view_entries(), key@, 0, self.view_entries().len() as int)].1)
            } else {
                None
            }),
    {
        let ghost s = self.view_entries();
        let mut lo: usize = 0;
        let mut hi: usize = self.entries.len();
        while lo < hi
            invariant
                s == index_views(self.entries@),
                s.len() == self.entries@.len(),
                lo <= hi <= s.len(),
                index_search(s, key@, lo as int, hi as int) == index_search(s, key@, 0, s.len() as int),
            decreases hi - lo,
        {
            let mid = lo + (hi - lo) / 2;
            assert(s[mid as int].0 == self.entries@[mid as int].0@);
            if key_less(self.entries[mid].0.as_slice(), key) {
                lo = mid + 1;
            } else {
                hi = mid;
            }
        }
        if lo < self.entries.len() {
            assert(s[lo as int].1 == self.entries@[lo as int].1);
            Some(&self.entries[lo].1)
        } else {
            None
        }
    }

    /// Encodes the index entries followed by their checksum.
    pub fn encode(&self) -> (r: Result<Vec<u8>, InvalidData>)
        ensures
            r matches Ok(b) && b@ == index_bytes(self.view_entries()),
    {
        let ghost s = self.view_entries();
        let mut buf: Vec<u8> = Vec::new();
        let mut i: usize = 0;
        while i < self.entries.len()
            invariant
                s == index_views(self.entries@),
                s.len() == self.entries@.len(),
                i <= s.len(),
                buf@ == index_body(s.subrange(0, i as int)),
            decreases s.len() - i,
        {
            let (key, handle) = (&self.entries[i].0, self.entries[i].1);
            let ghost x = s[i as int];
            assert(x == (key@, handle));
            write_varint(&mut buf, key.len() as u64);
            append_bytes(&mut buf, key.as_slice());
            write_varint(&mut buf, handle.offset);
            write_varint(&mut buf, handle.size);
            proof {
                lemma_index_body_push(s.subrange(0, i as int), x);
                assert(s.subrange(0, i + 1) =~= s.subrange(0, i as int).push(x));
            }
            i = i + 1;
        }
        assert(s.subrange(0, i as int) =~= s);
        let crc = crc32c_checksum(buf.as_slice());
        push_u32_le(&mut buf, crc);
        Ok(buf)
    }

    /// Decodes an index block, checking its checksum.
    pub fn decode(data: &[u8]) -> (r: Result<Self, InvalidData>)
        requires
            decode_index_spec(data@) != IndexParse::Overrun,
        ensures
            match (r, decode_index_spec(data@)) {
                (Ok(b), IndexParse::Parsed(s)) => b.view_entries() == s,
                (Err(e), IndexParse::Failed(msg)) => e.text() == msg,
                _ => false,
            },
    {
        let n = data.len();
        if n < 4 {
            return Err(invalid_data("Index block data too short"));
        }
        let index_data = vstd::slice::slice_subrange(data, 0, n - 4);
        let stored = read_u32_le(data, n - 4);
        let calculated = crc32c_checksum(index_data);
        if calculated != stored {
            return Err(crc_mismatch("Index block", stored, calculated));
        }
        let ghost d = index_data@;
        assert(decode_index_spec(data@) == parse_index_from(d, 0));
        let m = index_data.len();
        let mut entries: Vec<(Vec<u8>, BlockHandle)> = Vec::new();
        let mut cursor: usize = 0;
        assert(prepend_parse(Seq::empty(), parse_index_from(d, 0)) == parse_index_from(d, 0)) by {
            match parse_index_from(d, 0) {
                IndexParse::Parsed(rest) => {
                    assert(Seq::<IndexEntryView>::empty() + rest =~= rest);
                },
                _ => {},
            }
        }
        while cursor < m
            invariant
                d == index_data@,
                decode_index_spec(data@) == parse_index_from(d, 0),
                m == d.len(),
                cursor <= m,
                parse_index_from(d, 0) != IndexParse::Overrun,
                parse_index_from(d, 0) == prepend_parse(index_views(entries@), parse_index_from(d, cursor as int)),
            decreases m - cursor,
        {
            let ghost acc = index_views(entries@);
            let rest1 = vstd::slice::slice_subrange(index_data, cursor, m);
            assert(rest1@ =~= d.skip(cursor as int));
            proof {
                lemma_read_varint_len(d.skip(cursor as int));
            }
            let (key_len, n1) = match read_varint(rest1) {
                Ok(p) => p,
                Err(e) => {
                    assert(parse_index_from(d, cursor as int) == IndexParse::Failed(varint_error_text(e)));
                    return Err(varint_error(e));
                },
            };
            let c1 = cursor + n1;
            if key_len > (m - c1) as u64 {
                assert(false);
                return Err(invalid_data("Index block data too short"));
            }
            let c2 = c1 + key_len as usize;
            let key = copy_range(index_data, c1, c2);
            let rest2 = vstd::slice::slice_subrange(index_data, c2, m);
            assert(rest2@ =~= d.skip(c2 as int));
            proof {
                lemma_read_varint_len(d.skip(c2 as int));
            }
            let (offset, n2) = match read_varint(rest2) {
                Ok(p) => p,
                Err(e) => {
                    assert(parse_index_from(d, cursor as int) == IndexParse::Failed(varint_error_text(e)));
                    return Err(varint_error(e));
                },
            };
            let c3 = c2 + n2;
            let rest3 = vstd::slice::slice_subrange(index_data, c3, m);
            assert(rest3@ =~= d.skip(c3 as int));
            proof {
                lemma_read_varint_len(d.skip(c3 as int));
            }
            let (size, n3) = match read_varint(rest3) {
                Ok(p) => p,
                Err(e) => {
                    assert(parse_index_from(d, cursor as int) == IndexParse::Failed(varint_error_text(e)));
                    return Err(varint_error(e));
                },
            };
            let ghost x = (key@, BlockHandle { offset, size });
            entries.push((key, BlockHandle { offset, size }));
            assert(index_views(entries@) =~= acc.push(x));
            let ghost next = parse_index_from(d, (c3 + n3) as int);
            assert(prepend_parse(acc, parse_index_from(d, cursor as int)) == prepend_parse(acc.push(x), next)) by {
                match next {
                    IndexParse::Parsed(rest) => {
                        assert(acc + (seq![x] + rest) =~= acc.push(x) + rest);
                    },
                    _ => {},
                }
            }
            cursor = c3 + n3;
        }
        assert(parse_index_from(d, cursor as int) == IndexParse::Parsed(Seq::<IndexEntryView>::empty()));
        assert(index_views(entries@) + Seq::<IndexEntryView>::empty() =~= index_views(entries@));
        Ok(IndexBlock { entries })
    }
}


/// Data block of key-value entries, with a restart point every 16 entries.
#[derive(Debug, Clone)]
pub struct DataBlock {
    pub entries: Vec<Entry>,
    pub restart_points: Vec<u32>,
}

impl DataBlock {
    /// Creates an empty block.
    pub fn new() -> (r: Self)
        ensures
            r.entries@.len() == 0,
            r.restart_points@.len() == 0,
    {
        DataBlock { entries: Vec::new(), restart_points: Vec::new() }
    }

    /// Appends an entry, recording a restart point at every sixteenth entry.
    pub fn add_entry(&mut self, entry: Entry)
        ensures
            final(self).entries@ == old(self).entries@.push(entry),
            final(self).restart_points@ == if old(self).entries@.len() % 16 == 0 {
                old(self).restart_points@.push(old(self).entries@.len() as u32)
            } else {
                old(self).restart_points@
            },
            old(self).restart_points@ == crate::lsm::table::restarts_for(old(self).entries@.len()) && old(self).entries@.len()
                < 0x1_0000_0000 ==> final(self).restart_points@ == crate::lsm::table::restarts_for(final(self).entries@.len()),
    {
        proof {
            if old(self).entries@.len() < 0x1_0000_0000 {
                crate::lsm::table::lemma_restarts_step(old(self).entries@.len());
            }
        }
        if self.entries.len() % RESTART_INTERVAL == 0 {
            self.restart_points.push(self.entries.len() as u32);
        }
        self.entries.push(entry);
    }
}

/// An SSTable, described by its metadata; the engine manages its file.
#[derive(Debug, Clone)]
pub struct SSTable {
    pub metadata: SSTableMetadata,
}

} // verus!
