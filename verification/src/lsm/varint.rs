//! LEB128-style variable-length integers used inside SSTable blocks.
use vstd::prelude::*;

verus! {

/// The bytes `write_varint` emits for `v`: seven bits per byte, least significant
/// first, the high bit set on every byte but the last.
pub open spec fn varint_bytes(v: u64) -> Seq<u8>
    decreases v,
{
    if v < 0x80 {
        seq![v as u8]
    } else {
        proof {
            assert(v >= 0x80 ==> (v >> 7u64) < v) by (bit_vector);
        }
        seq![((v & 0x7f) | 0x80) as u8] + varint_bytes(v >> 7u64)
    }
}

/// Why a varint could not be read.
#[derive(Debug, Clone, Copy, PartialEq, Eq, Structural)]
pub enum VarintError {
    /// More than ten bytes carry a continuation bit ("Varint too large").
    TooLarge,
    /// The data ends before the last byte of the varint ("Incomplete varint").
    Incomplete,
}

/// Reading a varint from `data` starting at `i`, having accumulated `acc` from the
/// bytes before and with the next byte's bits landing at `shift`.
pub open spec fn read_varint_from(data: Seq<u8>, i: int, acc: u64, shift: u64) -> Result<(u64, int), VarintError>
    decreases data.len() - i,
{
    if i < 0 || i >= data.len() {
        Err(VarintError::Incomplete)
    } else {
        let b = data[i];
        let acc2 = acc | (((b & 0x7f) as u64) << shift);
        if b & 0x80 == 0 {
            Ok((acc2, i + 1))
        } else if shift + 7 >= 64 {
            Err(VarintError::TooLarge)
        } else {
            read_varint_from(data, i + 1, acc2, (shift + 7) as u64)
        }
    }
}

/// What `read_varint` yields on `data`: the value and the number of bytes it took.
pub open spec fn read_varint_spec(data: Seq<u8>) -> Result<(u64, int), VarintError> {
    read_varint_from(data, 0, 0, 0)
}

/// Appends the varint encoding of `value` to `buf`.
pub fn write_varint(buf: &mut Vec<u8>, value: u64)
    ensures
        final(buf)@ == old(buf)@ + varint_bytes(value),
{
    let ghost v0 = value;
    let mut value = value;
    while value >= 0x80
        invariant
            old(buf)@ + varint_bytes(v0) == buf@ + varint_bytes(value),
        decreases value,
    {
        let byte = ((value & 0x7f) | 0x80) as u8;
        let ghost b0 = buf@;
        buf.push(byte);
        let next = value >> 7;
        assert(value >= 0x80 ==> (value >> 7u64) < value) by (bit_vector);
        assert(varint_bytes(value) == seq![byte] + varint_bytes(next));
        assert(b0 + varint_bytes(value) =~= buf@ + varint_bytes(next));
        value = next;
    }
    let ghost b0 = buf@;
    buf.push(value as u8);
    assert(varint_bytes(value) == seq![value as u8]);
    assert(b0 + varint_bytes(value) =~= buf@);
}

/// Reads a varint from the start of `data`; returns the value and the bytes it took.
pub fn read_varint(data: &[u8]) -> (r: Result<(u64, usize), VarintError>)
    ensures
        match (r, read_varint_spec(data@)) {
            (Ok((v, n)), Ok((sv, sn))) => v == sv && n == sn,
            (Err(e), Err(se)) => e == se,
            _ => false,
        },
{
    let mut result: u64 = 0;
    let mut shift: u64 = 0;
    let mut i: usize = 0;
    while i < data.len()
        invariant
            i <= data@.len(),
            shift < 64,
            read_varint_from(data@, i as int, result, shift) == read_varint_spec(data@),
        decreases data@.len() - i,
    {
        let byte = data[i];
        result = result | (((byte & 0x7f) as u64) << shift);
        i = i + 1;
        if byte & 0x80 == 0 {
            return Ok((result, i));
        }
        if shift + 7 >= 64 {
            return Err(VarintError::TooLarge);
        }
        shift = shift + 7;
    }
    Err(VarintError::Incomplete)
}

proof fn lemma_varint_step_bits(w: u64, acc: u64, s: u64)
    requires
        w >= 0x80,
        s < 64,
        (w << s) >> s == w,
        acc >> s == 0,
    ensures
        s + 7 < 64,
        (acc | ((w & 0x7f) << s)) >> (s + 7) == 0,
        ((w >> 7u64) << (s + 7)) >> (s + 7) == w >> 7u64,
        (acc | ((w & 0x7f) << s)) | ((w >> 7u64) << (s + 7)) == acc | (w << s),
        (((w & 0x7f) | 0x80) as u8) & 0x80 != 0,
        (((((w & 0x7f) | 0x80) as u8) & 0x7f) as u64) == w & 0x7f,
{
    assert(s + 7 < 64) by (bit_vector)
        requires
            w >= 0x80,
            s < 64,
            (w << s) >> s == w,
    ;
    assert((acc | ((w & 0x7f) << s)) >> (s + 7) == 0) by (bit_vector)
        requires
            s + 7 < 64,
            acc >> s == 0,
    ;
    assert(((w >> 7u64) << (s + 7)) >> (s + 7) == w >> 7u64) by (bit_vector)
        requires
            s + 7 < 64,
            (w << s) >> s == w,
    ;
    assert((acc | ((w & 0x7f) << s)) | ((w >> 7u64) << (s + 7)) == acc | (w << s)) by (bit_vector)
        requires
            s + 7 < 64,
    ;
    assert((((w & 0x7f) | 0x80) as u8) & 0x80 != 0) by (bit_vector);
    assert((((((w & 0x7f) | 0x80) as u8) & 0x7f) as u64) == w & 0x7f) by (bit_vector);
}

proof fn lemma_varint_last_bits(w: u64, acc: u64, s: u64)
    requires
        w < 0x80,
    ensures
        (w as u8) & 0x80 == 0,
        acc | ((((w as u8) & 0x7f) as u64) << s) == acc | (w << s),
{
    assert((w as u8) & 0x80 == 0) by (bit_vector)
        requires
            w < 0x80,
    ;
    assert(acc | ((((w as u8) & 0x7f) as u64) << s) == acc | (w << s)) by (bit_vector)
        requires
            w < 0x80,
    ;
}

proof fn lemma_read_written(prefix: Seq<u8>, w: u64, rest: Seq<u8>, acc: u64, s: u64)
    requires
        s < 64,
        (w << s) >> s == w,
        acc >> s == 0,
    ensures
        read_varint_from(prefix + varint_bytes(w) + rest, prefix.len() as int, acc, s) == Ok::<(u64, int), VarintError>(
            (acc | (w << s), prefix.len() + varint_bytes(w).len() as int),
        ),
    decreases w,
{
    let data = prefix + varint_bytes(w) + rest;
    let i = prefix.len() as int;
    if w < 0x80 {
        lemma_varint_last_bits(w, acc, s);
        assert(data[i] == w as u8);
    } else {
        lemma_varint_step_bits(w, acc, s);
        let b = ((w & 0x7f) | 0x80) as u8;
        assert(data[i] == b);
        let acc2 = acc | ((w & 0x7f) << s);
        assert(acc | (((b & 0x7f) as u64) << s) == acc2);
        assert(w >= 0x80 ==> (w >> 7u64) < w) by (bit_vector);
        let p2 = prefix.push(b);
        assert(data =~= p2 + varint_bytes(w >> 7u64) + rest);
        lemma_read_written(p2, w >> 7u64, rest, acc2, (s + 7) as u64);
    }
}

/// Reading back what `write_varint` wrote gives the value and its encoded length;
/// bytes after it are not read.
pub proof fn lemma_varint_roundtrip(v: u64, rest: Seq<u8>)
    ensures
        1 <= varint_bytes(v).len() <= 10,
        read_varint_spec(varint_bytes(v) + rest) == Ok::<(u64, int), VarintError>((v, varint_bytes(v).len() as int)),
{
    assert((v << 0u64) >> 0u64 == v) by (bit_vector);
    assert((0u64 >> 0u64) == 0) by (bit_vector);
    assert(0u64 | (v << 0u64) == v) by (bit_vector);
    lemma_read_written(Seq::empty(), v, rest, 0, 0);
    assert(Seq::<u8>::empty() + varint_bytes(v) + rest =~= varint_bytes(v) + rest);
    lemma_varint_len(v);
}

proof fn lemma_varint_len(v: u64)
    ensures
        1 <= varint_bytes(v).len() <= 10,
        v < 0x80 ==> varint_bytes(v).len() == 1,
        v < 0x4000 ==> varint_bytes(v).len() <= 2,
    decreases v,
{
    if v >= 0x80 {
        assert(v >= 0x80 ==> (v >> 7u64) < v) by (bit_vector);
        assert((v >> 7u64) <= 0x1ffffffffffffffu64) by (bit_vector);
        assert(v < 0x4000 ==> (v >> 7u64) < 0x80) by (bit_vector);
        assert((v >> 7u64) <= (0xffffffffffffffffu64 >> 1u64)) by (bit_vector);
        assert(((64 - 7 * 9nat) as u64) == 1u64);
        lemma_varint_len_bound(v >> 7u64, 9);
        lemma_varint_len(v >> 7u64);
    }
}

proof fn lemma_varint_len_bound(v: u64, k: nat)
    requires
        1 <= k <= 9,
        v <= (0xffffffffffffffffu64 >> ((64 - 7 * k) as u64)),
    ensures
        varint_bytes(v).len() <= k,
    decreases k,
{
    if v >= 0x80 {
        if k == 1 {
            assert(v <= (0xffffffffffffffffu64 >> 57u64) ==> v < 0x80) by (bit_vector);
        } else {
            assert(v >= 0x80 ==> (v >> 7u64) < v) by (bit_vector);
            let t = (64 - 7 * k) as u64;
            let t2 = (64 - 7 * (k - 1)) as u64;
            assert(t2 == t + 7);
            assert((v <= (0xffffffffffffffffu64 >> t) && t < 64 && t2 == t + 7) ==> (v >> 7u64) <= (0xffffffffffffffffu64 >> t2)) by (bit_vector);
            lemma_varint_len_bound(v >> 7u64, (k - 1) as nat);
        }
    }
}

proof fn lemma_read_from_error(d: Seq<u8>, i: int, acc: u64)
    requires
        0 <= i <= 9,
    ensures
        read_varint_from(d, i, acc, (7 * i) as u64) is Err <==> (forall|j: int|
            i <= j < d.len() && j < 10 ==> #[trigger] d[j] & 0x80 != 0),
    decreases 10 - i,
{
    if i < d.len() {
        let b = d[i];
        let acc2 = acc | (((b & 0x7f) as u64) << ((7 * i) as u64));
        if b & 0x80 != 0 && i < 9 {
            assert((7 * i) as u64 + 7 == (7 * (i + 1)) as u64);
            lemma_read_from_error(d, i + 1, acc2);
        }
    }
}

/// Reading a varint fails exactly when none of the first ten bytes (or of all
/// bytes, where there are fewer) has its high bit clear.
pub proof fn lemma_varint_error(d: Seq<u8>)
    ensures
        read_varint_spec(d) is Err <==> (forall|j: int| 0 <= j < d.len() && j < 10 ==> #[trigger] d[j] & 0x80 != 0),
{
    lemma_read_from_error(d, 0, 0);
}

} // verus!
