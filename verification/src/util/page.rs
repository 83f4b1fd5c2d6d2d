//! Pages and blocks: sizes, the all-zero page, and byte-order helpers.

use vstd::prelude::*;

verus! {

/// Bytes in one page.
pub const PAGE_SIZE: usize = 4096;

/// Pages in one block.
pub const BLOCK_PAGES: u32 = 128;

/// Bytes in one block.
pub const BLOCK_BYTES: u32 = 524288;

/// The unit of reading and writing.
pub type Page = [u8; 4096];

/// The all-zero page: what an erased or never-written page reads as.
pub open spec fn zero_page() -> Seq<u8> {
    Seq::new(4096, |i: int| 0u8)
}

/// Whether `p` is a full page of zero bytes.
pub open spec fn is_zero_page(p: Seq<u8>) -> bool {
    p =~= zero_page()
}

/// The big-endian value of four bytes.
pub open spec fn be32(b0: u8, b1: u8, b2: u8, b3: u8) -> u32 {
    ((b0 as u32) << 24) | ((b1 as u32) << 16) | ((b2 as u32) << 8) | (b3 as u32)
}

/// Byte `k` (0 is the most significant) of `x` in big-endian order.
pub open spec fn be_byte(x: u32, k: int) -> u8 {
    if k == 0 {
        ((x >> 24) & 0xff) as u8
    } else if k == 1 {
        ((x >> 16) & 0xff) as u8
    } else if k == 2 {
        ((x >> 8) & 0xff) as u8
    } else {
        (x & 0xff) as u8
    }
}

/// Reading back the four big-endian bytes of `x` gives `x`.
pub proof fn lemma_be32_round_trip(x: u32)
    ensures
        be32(be_byte(x, 0), be_byte(x, 1), be_byte(x, 2), be_byte(x, 3)) == x,
{
    assert(((((x >> 24) & 0xff) as u8) as u32) << 24 | ((((x >> 16) & 0xff) as u8) as u32) << 16
        | ((((x >> 8) & 0xff) as u8) as u32) << 8 | (((x & 0xff) as u8) as u32) == x)
        by (bit_vector);
}

/// The four big-endian bytes of `x`.
pub fn to_be_bytes(x: u32) -> (b: (u8, u8, u8, u8))
    ensures
        b.0 == be_byte(x, 0),
        b.1 == be_byte(x, 1),
        b.2 == be_byte(x, 2),
        b.3 == be_byte(x, 3),
{
    assert((x >> 24) & 0xff < 256) by (bit_vector);
    assert((x >> 16) & 0xff < 256) by (bit_vector);
    assert((x >> 8) & 0xff < 256) by (bit_vector);
    assert(x & 0xff < 256) by (bit_vector);
    (((x >> 24) & 0xff) as u8, ((x >> 16) & 0xff) as u8, ((x >> 8) & 0xff) as u8, (x & 0xff) as u8)
}

/// The word whose big-endian bytes are `b0 b1 b2 b3`.
pub fn from_be_bytes(b0: u8, b1: u8, b2: u8, b3: u8) -> (x: u32)
    ensures
        x == be32(b0, b1, b2, b3),
{
    ((b0 as u32) << 24) | ((b1 as u32) << 16) | ((b2 as u32) << 8) | (b3 as u32)
}

/// Whether every byte of the page is zero.
pub fn page_is_zero(p: &Page) -> (r: bool)
    ensures
        r == is_zero_page(p@),
{
    let mut i: usize = 0;
    while i < 4096
        invariant
            i <= 4096,
            forall|j: int| 0 <= j < i ==> p@[j] == 0u8,
        decreases 4096 - i,
    {
        if p[i] != 0 {
            assert(zero_page()[i as int] == 0u8);
            return false;
        }
        i = i + 1;
    }
    true
}

} // verus!

verus! {

/// The byte sequences of a run of pages.
pub open spec fn page_views(pages: Seq<Page>) -> Seq<Seq<u8>> {
    Seq::new(pages.len(), |i: int| pages[i]@)
}

} // verus!
