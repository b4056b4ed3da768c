//! Block identifiers.

use vstd::prelude::*;

verus! {

/// The number that a block identifier carries in bytes 4 to 7, read big-endian.
pub open spec fn block_number_of(block_id: Seq<u8>) -> int
    recommends
        block_id.len() == 32,
{
    block_id[4] * 0x100_0000 + block_id[5] * 0x1_0000 + block_id[6] * 0x100 + block_id[7]
}

/// Reads the block number out of a block identifier.
pub fn block_id_to_number(block_id: [u8; 32]) -> (number: u32)
    ensures
        number == block_number_of(block_id@),
{
    let b4: u32 = block_id[4] as u32;
    let b5: u32 = block_id[5] as u32;
    let b6: u32 = block_id[6] as u32;
    let b7: u32 = block_id[7] as u32;
    b4 * 0x100_0000 + b5 * 0x1_0000 + b6 * 0x100 + b7
}

} // verus!
