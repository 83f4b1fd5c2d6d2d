//! What a block of the reserved region is, and conversions between the two
//! forms of a block.

use vstd::prelude::*;
use crate::util::array::Array1;
use crate::util::page::{Page, page_views};

verus! {

/// What a block of the reserved region holds.
#[derive(Clone, Copy, Debug, PartialEq, Eq, Structural)]
pub enum BlockType {
    /// The table of remapped blocks.
    MappingTable,
    /// Page signatures.
    Signature,
    /// A replacement for a bad block.
    Used,
    /// Nothing yet.
    Unused,
    /// No marker was found.
    Unknown,
}

/// The block opens with the marker of a mapping table, `22 22 FF FF`.
pub open spec fn has_mapping_magic(block: Seq<Seq<u8>>) -> bool {
    &&& block[0][0] == 0x22u8
    &&& block[0][1] == 0x22u8
    &&& block[0][2] == 0xffu8
    &&& block[0][3] == 0xffu8
}

/// The first signature slot of the block carries the marker of a signature,
/// `33 33 AA AA`, in its bytes 119..123.
pub open spec fn has_signature_magic(block: Seq<Seq<u8>>) -> bool {
    &&& block[0][119] == 0x33u8
    &&& block[0][120] == 0x33u8
    &&& block[0][121] == 0xaau8
    &&& block[0][122] == 0xaau8
}

/// The type of a block by its markers; the mapping marker is looked for first.
pub open spec fn block_type_of(block: Seq<Seq<u8>>) -> BlockType {
    if has_mapping_magic(block) {
        BlockType::MappingTable
    } else if has_signature_magic(block) {
        BlockType::Signature
    } else {
        BlockType::Unknown
    }
}

/// The type of the reserved-region block `data`.
pub fn judge_block_type(data: &Array1<[u8; 4096]>) -> (t: BlockType)
    requires
        data@.len() >= 1,
    ensures
        t == block_type_of(page_views(data@)),
{
    let first: Page = data.get(0);
    if first[0] == 0x22 && first[1] == 0x22 && first[2] == 0xff && first[3] == 0xff {
        return BlockType::MappingTable;
    }
    if first[119] == 0x33 && first[120] == 0x33 && first[121] == 0xaa && first[122] == 0xaa {
        return BlockType::Signature;
    }
    BlockType::Unknown
}

/// The block as an array of 128 pages.
pub fn transfer(data: &[[u8; 4096]; 128]) -> (res: Array1<[u8; 4096]>)
    ensures
        res.spec_len() == 128,
        res@ == data@,
{
    let mut res: Array1<[u8; 4096]> = Array1::new(128);
    res.init([0u8; 4096]);
    let mut i: u32 = 0;
    while i < 128
        invariant
            i <= 128,
            res.spec_len() == 128,
            res@.len() == 128,
            forall|j: int| 0 <= j < i ==> res@[j] == data@[j],
        decreases 128 - i,
    {
        res.set(i, data[i as usize]);
        i = i + 1;
    }
    assert(res@ =~= data@);
    res
}

/// The first 128 pages of `data` as a block.
pub fn reverse(data: &Array1<[u8; 4096]>) -> (ret: [[u8; 4096]; 128])
    requires
        data@.len() >= 128,
    ensures
        ret@ == data@.subrange(0, 128),
{
    let mut ret: [[u8; 4096]; 128] = [[0u8; 4096]; 128];
    let mut i: usize = 0;
    while i < 128
        invariant
            i <= 128,
            data@.len() >= 128,
            forall|j: int| 0 <= j < i ==> ret@[j] == data@[j],
        decreases 128 - i,
    {
        ret[i] = data.get(i as u32);
        i = i + 1;
    }
    assert(ret@ =~= data@.subrange(0, 128));
    ret
}

} // verus!
