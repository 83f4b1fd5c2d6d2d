//! CRC-32C (Castagnoli), computed bit by bit in reflected form.

use vstd::prelude::*;

verus! {

/// The reflected Castagnoli polynomial.
pub const CRC32C_POLY: u32 = 0x82F6_3B78;

/// One step of the shift register: shift right, and fold the polynomial in
/// when the bit that falls out is set.
pub open spec fn crc_shift(crc: u32) -> u32 {
    if crc & 1 == 1 {
        (crc >> 1) ^ CRC32C_POLY
    } else {
        crc >> 1
    }
}

/// `n` steps of the shift register.
pub open spec fn crc_shift_n(crc: u32, n: nat) -> u32
    decreases n,
{
    if n == 0 {
        crc
    } else {
        crc_shift(crc_shift_n(crc, (n - 1) as nat))
    }
}

/// The register after one more byte.
pub open spec fn crc_feed(crc: u32, byte: u8) -> u32 {
    crc_shift_n(crc ^ (byte as u32), 8)
}

/// The register after all of `data`, starting from all ones.
pub open spec fn crc_register(data: Seq<u8>) -> u32
    decreases data.len(),
{
    if data.len() == 0 {
        0xFFFF_FFFFu32
    } else {
        crc_feed(crc_register(data.drop_last()), data.last())
    }
}

/// The CRC-32C checksum of `data`.
pub open spec fn crc32c(data: Seq<u8>) -> u32 {
    crc_register(data) ^ 0xFFFF_FFFFu32
}

/// Feeds one byte into the register.
fn feed(crc: u32, byte: u8) -> (r: u32)
    ensures
        r == crc_feed(crc, byte),
{
    let start: u32 = crc ^ (byte as u32);
    let mut cur: u32 = start;
    let mut k: u8 = 0;
    while k < 8
        invariant
            k <= 8,
            cur == crc_shift_n(start, k as nat),
        decreases 8 - k,
    {
        if cur & 1 == 1 {
            cur = (cur >> 1) ^ CRC32C_POLY;
        } else {
            cur = cur >> 1;
        }
        k = k + 1;
    }
    cur
}

/// The CRC-32C checksum of `data`.
pub fn checksum(data: &[u8]) -> (sum: u32)
    ensures
        sum == crc32c(data@),
{
    let mut crc: u32 = 0xFFFF_FFFF;
    let mut i: usize = 0;
    while i < data.len()
        invariant
            i <= data@.len(),
            crc == crc_register(data@.take(i as int)),
        decreases data@.len() - i,
    {
        proof {
            let next = data@.take(i + 1);
            assert(next.drop_last() =~= data@.take(i as int));
            assert(next.last() == data@[i as int]);
        }
        crc = feed(crc, data[i]);
        i = i + 1;
    }
    assert(data@.take(i as int) =~= data@);
    crc ^ 0xFFFF_FFFF
}

} // verus!
