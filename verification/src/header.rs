//! The block-header record: timestamp, transaction root, previous block and
//! block number, in that order.

use crate::bytes::{array_of, bytes_equal, lemma_array_of_view, take_array};
use crate::wire::{
    read_varint, tag, u64_be, u64_to_be_bytes, varint, VarintError, WIRE_LEN, WIRE_VARINT,
};
use vstd::prelude::*;
use vstd::slice::slice_subrange;

verus! {

/// Tag byte of the timestamp: field 1, a variable-length integer.
pub const TAG_TIMESTAMP: u8 = 0x08;

/// Tag byte of the transaction root: field 2, length-delimited.
pub const TAG_TX_ROOT: u8 = 0x12;

/// Tag byte of the previous block's identifier: field 3, length-delimited.
pub const TAG_PREV_BLOCK: u8 = 0x1a;

/// Tag byte of the block number: field 7, a variable-length integer.
pub const TAG_BLOCK_NUMBER: u8 = 0x38;

/// The largest block number a header may carry.
pub const MAX_BLOCK_NUMBER: u64 = 0x1_0000_0000;

/// Each tag byte holds the field number and the wire type of its field.
pub proof fn lemma_header_tags()
    ensures
        TAG_TIMESTAMP == tag(1, WIRE_VARINT),
        TAG_TX_ROOT == tag(2, WIRE_LEN),
        TAG_PREV_BLOCK == tag(3, WIRE_LEN),
        TAG_BLOCK_NUMBER == tag(7, WIRE_VARINT),
{
}

/// What a block header says.
#[derive(Clone, Copy, Debug, PartialEq, Eq)]
pub struct BlockHeader {
    /// Identifier of the block before this one.
    pub prev_block_id: [u8; 32],
    /// Identifier of this block.
    pub new_block_id: [u8; 32],
    /// Merkle root of the block's transactions.
    pub tx_root: [u8; 32],
    /// Time of the block, in the chain's clock.
    pub timestamp: u64,
}

/// Why a header was rejected.
#[derive(Clone, Copy, Debug, PartialEq, Eq, Structural)]
pub enum HeaderError {
    /// The record ends before a required field is complete.
    Truncated,
    /// A tag byte is not the one required at its place, or a root or
    /// identifier is not announced as 32 bytes long.
    UnexpectedField,
    /// The timestamp or the block number does not fit in 64 bits.
    VarintOverflow,
    /// The previous block named in the header is not the expected one.
    PrevBlockMismatch,
    /// The block number is above `MAX_BLOCK_NUMBER`.
    BlockNumberOutOfRange,
}

/// The error of a header whose integer could not be read.
pub open spec fn varint_failure(e: VarintError) -> HeaderError {
    match e {
        VarintError::Truncated => HeaderError::Truncated,
        VarintError::Overflow => HeaderError::VarintOverflow,
    }
}

/// Whether the 32-byte field with tag byte `tag` stands at `at`: the tag, a
/// length byte of 32, and 32 bytes.
pub open spec fn field32_check(raw: Seq<u8>, at: int, tag: u8) -> Result<(), HeaderError> {
    if raw.len() < at + 2 {
        Err(HeaderError::Truncated)
    } else if raw[at] != tag || raw[at + 1] != 32 {
        Err(HeaderError::UnexpectedField)
    } else if raw.len() < at + 34 {
        Err(HeaderError::Truncated)
    } else {
        Ok(())
    }
}

/// The identifier of a block: the digest of its header with the first eight
/// bytes replaced by the block number, most significant byte first.
pub open spec fn block_id(number: u64, digest: [u8; 32]) -> [u8; 32] {
    array_of::<32>(u64_be(number) + digest@.subrange(8, 32))
}

/// The header that `raw` encodes, for a block that is to follow
/// `expected_prev` and whose header has the digest `digest`.
///
/// The record starts with the timestamp; the transaction root follows it
/// directly, then the previous block's identifier, then the block number.
/// Anything after the block number is ignored.
#[verifier::opaque]
pub open spec fn header_of(expected_prev: [u8; 32], raw: Seq<u8>, digest: [u8; 32]) -> Result<
    BlockHeader,
    HeaderError,
> {
    if raw.len() < 1 {
        Err(HeaderError::Truncated)
    } else if raw[0] != TAG_TIMESTAMP {
        Err(HeaderError::UnexpectedField)
    } else {
        match varint(raw.subrange(1, raw.len() as int)) {
            Err(e) => Err(varint_failure(e)),
            Ok((timestamp, n)) => {
                let root_at = 1 + n;
                let prev_at = root_at + 34;
                let number_at = prev_at + 34;
                if field32_check(raw, root_at, TAG_TX_ROOT) is Err {
                    Err(field32_check(raw, root_at, TAG_TX_ROOT)->Err_0)
                } else if field32_check(raw, prev_at, TAG_PREV_BLOCK) is Err {
                    Err(field32_check(raw, prev_at, TAG_PREV_BLOCK)->Err_0)
                } else if raw.subrange(prev_at + 2, prev_at + 34) != expected_prev@ {
                    Err(HeaderError::PrevBlockMismatch)
                } else if raw.len() < number_at + 1 {
                    Err(HeaderError::Truncated)
                } else if raw[number_at] != TAG_BLOCK_NUMBER {
                    Err(HeaderError::UnexpectedField)
                } else {
                    match varint(raw.subrange(number_at + 1, raw.len() as int)) {
                        Err(e) => Err(varint_failure(e)),
                        Ok((number, _)) => if number > MAX_BLOCK_NUMBER {
                            Err(HeaderError::BlockNumberOutOfRange)
                        } else {
                            Ok(
                                BlockHeader {
                                    prev_block_id: expected_prev,
                                    new_block_id: block_id(number, digest),
                                    tx_root: array_of::<32>(
                                        raw.subrange(root_at + 2, root_at + 34),
                                    ),
                                    timestamp,
                                },
                            )
                        },
                    }
                }
            },
        }
    }
}

/// Checks that the 32-byte field with tag byte `tag` stands at `at`.
fn check_field32(raw: &[u8], at: usize, tag: u8) -> (r: Result<(), HeaderError>)
    requires
        at <= raw.len(),
    ensures
        r == field32_check(raw@, at as int, tag),
{
    if raw.len() - at < 2 {
        return Err(HeaderError::Truncated);
    }
    if raw[at] != tag || raw[at + 1] != 32 {
        return Err(HeaderError::UnexpectedField);
    }
    if raw.len() - at < 34 {
        return Err(HeaderError::Truncated);
    }
    Ok(())
}

/// Builds a block's identifier from its number and the digest of its header.
fn make_block_id(number: u64, digest: [u8; 32]) -> (id: [u8; 32])
    ensures
        id == block_id(number, digest),
{
    let prefix = u64_to_be_bytes(number);
    let mut id: [u8; 32] = digest;
    let mut i: usize = 0;
    while i < 8
        invariant
            i <= 8,
            prefix@ == u64_be(number),
            forall|j: int| 0 <= j < i ==> id@[j] == prefix@[j],
            forall|j: int| 8 <= j < 32 ==> id@[j] == digest@[j],
        decreases 8 - i,
    {
        id[i] = prefix[i];
        i += 1;
    }
    assert(id@ =~= u64_be(number) + digest@.subrange(8, 32));
    proof {
        lemma_array_of_view(id);
    }
    id
}

/// Reads a block header.
///
/// `prev_block_id` is the identifier that the header must name as its
/// predecessor, `hash` the digest of `raw_data`.
pub fn parse_block_header(prev_block_id: [u8; 32], raw_data: &[u8], hash: [u8; 32]) -> (r: Result<
    BlockHeader,
    HeaderError,
>)
    ensures
        r == header_of(prev_block_id, raw_data@, hash),
{
    reveal(header_of);
    let len = raw_data.len();
    if len < 1 {
        return Err(HeaderError::Truncated);
    }
    if raw_data[0] != TAG_TIMESTAMP {
        return Err(HeaderError::UnexpectedField);
    }
    let (timestamp, n) = match read_varint(slice_subrange(raw_data, 1, len)) {
        Ok(pair) => pair,
        Err(VarintError::Truncated) => {
            return Err(HeaderError::Truncated);
        },
        Err(VarintError::Overflow) => {
            return Err(HeaderError::VarintOverflow);
        },
    };
    let root_at: usize = 1 + n;
    match check_field32(raw_data, root_at, TAG_TX_ROOT) {
        Err(e) => {
            return Err(e);
        },
        Ok(()) => {},
    }
    let tx_root = take_array::<32>(raw_data, root_at + 2);
    let prev_at: usize = root_at + 34;
    match check_field32(raw_data, prev_at, TAG_PREV_BLOCK) {
        Err(e) => {
            return Err(e);
        },
        Ok(()) => {},
    }
    if !bytes_equal(slice_subrange(raw_data, prev_at + 2, prev_at + 34), prev_block_id.as_slice()) {
        return Err(HeaderError::PrevBlockMismatch);
    }
    let number_at: usize = prev_at + 34;
    if len - number_at < 1 {
        return Err(HeaderError::Truncated);
    }
    if raw_data[number_at] != TAG_BLOCK_NUMBER {
        return Err(HeaderError::UnexpectedField);
    }
    let number = match read_varint(slice_subrange(raw_data, number_at + 1, len)) {
        Ok((number, _)) => number,
        Err(VarintError::Truncated) => {
            return Err(HeaderError::Truncated);
        },
        Err(VarintError::Overflow) => {
            return Err(HeaderError::VarintOverflow);
        },
    };
    if number > MAX_BLOCK_NUMBER {
        return Err(HeaderError::BlockNumberOutOfRange);
    }
    Ok(
        BlockHeader {
            prev_block_id,
            new_block_id: make_block_id(number, hash),
            tx_root,
            timestamp,
        },
    )
}

} // verus!
