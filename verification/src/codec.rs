//! Little-endian integer framing shared by the on-disk and log formats.
use vstd::prelude::*;
use vstd::bytes::*;
use vstd::string::StringExecFns;
use crate::text::{hex_digits, push_hex};

verus! {

/// Little-endian bytes of a signed 64-bit integer (its two's complement bits).
pub open spec fn spec_i64_to_le_bytes(x: i64) -> Seq<u8> {
    spec_u64_to_le_bytes(x as u64)
}

/// Signed 64-bit integer read from eight little-endian bytes.
pub open spec fn spec_i64_from_le_bytes(s: Seq<u8>) -> i64 {
    spec_u64_from_le_bytes(s) as i64
}

/// The unsigned 32-bit integer stored at `off` in `p`.
pub open spec fn u32_at(p: Seq<u8>, off: int) -> u32 {
    spec_u32_from_le_bytes(p.subrange(off, off + 4))
}

/// The unsigned 64-bit integer stored at `off` in `p`.
pub open spec fn u64_at(p: Seq<u8>, off: int) -> u64 {
    spec_u64_from_le_bytes(p.subrange(off, off + 8))
}

/// The signed 64-bit integer stored at `off` in `p`.
pub open spec fn i64_at(p: Seq<u8>, off: int) -> i64 {
    spec_i64_from_le_bytes(p.subrange(off, off + 8))
}

pub proof fn lemma_i64_roundtrip(x: i64)
    ensures
        spec_i64_to_le_bytes(x).len() == 8,
        spec_i64_from_le_bytes(spec_i64_to_le_bytes(x)) == x,
{
    lemma_auto_spec_u64_to_from_le_bytes();
    let u = x as u64;
    assert(spec_u64_from_le_bytes(spec_u64_to_le_bytes(u)) == u);
    assert((u as i64) == x) by (bit_vector)
        requires
            u == x as u64,
    ;
}

/// Appends all of `s` to `v`.
pub fn append_bytes(v: &mut Vec<u8>, s: &[u8])
    ensures
        final(v)@ == old(v)@ + s@,
{
    let mut i: usize = 0;
    while i < s.len()
        invariant
            i <= s@.len(),
            v@ == old(v)@ + s@.subrange(0, i as int),
        decreases s@.len() - i,
    {
        v.push(s[i]);
        i = i + 1;
        assert(s@.subrange(0, i as int) == s@.subrange(0, i - 1) + seq![s@[i - 1]]);
    }
    assert(s@.subrange(0, s@.len() as int) == s@);
}

/// Appends the little-endian bytes of `x` to `v`.
pub fn push_u32_le(v: &mut Vec<u8>, x: u32)
    ensures
        final(v)@ == old(v)@ + spec_u32_to_le_bytes(x),
{
    let b = u32_to_le_bytes(x);
    append_bytes(v, b.as_slice());
}

/// Appends the little-endian bytes of `x` to `v`.
pub fn push_u64_le(v: &mut Vec<u8>, x: u64)
    ensures
        final(v)@ == old(v)@ + spec_u64_to_le_bytes(x),
{
    let b = u64_to_le_bytes(x);
    append_bytes(v, b.as_slice());
}

/// Appends the little-endian bytes of `x` to `v`.
pub fn push_i64_le(v: &mut Vec<u8>, x: i64)
    ensures
        final(v)@ == old(v)@ + spec_i64_to_le_bytes(x),
{
    push_u64_le(v, x as u64);
}

/// Reads the unsigned 32-bit integer stored at `off`.
pub fn read_u32_le(p: &[u8], off: usize) -> (r: u32)
    requires
        off + 4 <= p@.len(),
    ensures
        r == u32_at(p@, off as int),
{
    let _n = p.len();
    u32_from_le_bytes(vstd::slice::slice_subrange(p, off, off + 4))
}

/// Reads the unsigned 64-bit integer stored at `off`.
pub fn read_u64_le(p: &[u8], off: usize) -> (r: u64)
    requires
        off + 8 <= p@.len(),
    ensures
        r == u64_at(p@, off as int),
{
    let _n = p.len();
    u64_from_le_bytes(vstd::slice::slice_subrange(p, off, off + 8))
}

/// Reads the signed 64-bit integer stored at `off`.
pub fn read_i64_le(p: &[u8], off: usize) -> (r: i64)
    requires
        off + 8 <= p@.len(),
    ensures
        r == i64_at(p@, off as int),
{
    read_u64_le(p, off) as i64
}

/// Copies the bytes of `p` in `[start, end)` into a new vector.
pub fn copy_range(p: &[u8], start: usize, end: usize) -> (r: Vec<u8>)
    requires
        start <= end <= p@.len(),
    ensures
        r@ == p@.subrange(start as int, end as int),
{
    vstd::slice::slice_to_vec(vstd::slice::slice_subrange(p, start, end))
}


/// A malformed on-disk structure; the message says what is wrong.
#[derive(Debug)]
pub struct InvalidData {
    pub message: String,
}

impl InvalidData {
    /// The text of the message.
    pub open spec fn text(self) -> Seq<char> {
        self.message@
    }

    /// The message, as it is displayed.
    pub fn to_string(&self) -> (r: String)
        ensures
            r@ == self.text(),
    {
        self.message.clone()
    }
}

/// An error whose message is `msg`.
pub fn invalid_data(msg: &str) -> (r: InvalidData)
    ensures
        r.text() == msg@,
{
    InvalidData { message: msg.to_owned() }
}

/// The message reporting a checksum mismatch in `what`.
pub open spec fn crc_mismatch_text(what: Seq<char>, expected: u32, found: u32) -> Seq<char> {
    what + " CRC32 mismatch: expected 0x"@ + hex_digits(expected as u64, 8) + ", got 0x"@ + hex_digits(found as u64, 8)
}

/// An error reporting that the stored checksum of `what` is `expected` but the data hashes to `found`.
pub fn crc_mismatch(what: &str, expected: u32, found: u32) -> (r: InvalidData)
    ensures
        r.text() == crc_mismatch_text(what@, expected, found),
{
    let mut m = what.to_owned();
    m.append(" CRC32 mismatch: expected 0x");
    push_hex(&mut m, expected as u64, 8);
    m.append(", got 0x");
    push_hex(&mut m, found as u64, 8);
    InvalidData { message: m }
}

} // verus!
