//! CRC-32C (Castagnoli) checksums protecting on-disk blocks and blob records.
use vstd::prelude::*;

verus! {

/// The reflected CRC-32C polynomial.
pub const CRC32C_POLY: u32 = 0x82F63B78u32;

/// One bit step of the reflected CRC register.
pub open spec fn crc_shift(c: u32) -> u32 {
    if c & 1 == 1 {
        (c >> 1u32) ^ CRC32C_POLY
    } else {
        c >> 1u32
    }
}

/// `k` bit steps of the CRC register.
pub open spec fn crc_shifts(c: u32, k: nat) -> u32
    decreases k,
{
    if k == 0 {
        c
    } else {
        crc_shifts(crc_shift(c), (k - 1) as nat)
    }
}

/// The CRC register after absorbing `data`, starting from `c`.
pub open spec fn crc_register(c: u32, data: Seq<u8>) -> u32
    decreases data.len(),
{
    if data.len() == 0 {
        c
    } else {
        crc_shifts(crc_register(c, data.drop_last()) ^ (data.last() as u32), 8)
    }
}

/// The CRC-32C checksum of `data`.
pub open spec fn crc32c(data: Seq<u8>) -> u32 {
    !crc_register(0xFFFF_FFFFu32, data)
}

/// Computes the CRC-32C checksum of `data`.
pub fn crc32c_checksum(data: &[u8]) -> (r: u32)
    ensures
        r == crc32c(data@),
{
    let mut c: u32 = 0xFFFF_FFFF;
    let mut i: usize = 0;
    while i < data.len()
        invariant
            i <= data@.len(),
            c == crc_register(0xFFFF_FFFFu32, data@.subrange(0, i as int)),
        decreases data@.len() - i,
    {
        assert(data@.subrange(0, i + 1).drop_last() =~= data@.subrange(0, i as int));
        let mut x: u32 = c ^ (data[i] as u32);
        let ghost x0 = x;
        let mut k: u32 = 0;
        while k < 8
            invariant
                k <= 8,
                crc_shifts(x, (8 - k) as nat) == crc_shifts(x0, 8),
            decreases 8 - k,
        {
            x = if x & 1 == 1 { (x >> 1) ^ CRC32C_POLY } else { x >> 1 };
            k = k + 1;
        }
        c = x;
        i = i + 1;
    }
    assert(data@.subrange(0, i as int) =~= data@);
    !c
}

} // verus!
