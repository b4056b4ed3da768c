//! Recognizers for the two kinds of transaction that matter here: a transfer
//! of the token, and a vote for block producers. Every other transaction is
//! reported as not recognized.

use crate::bytes::{array_of, bytes_equal, take_array};
use crate::wire::{
    read_varint, tag, u64_from_le_bytes, u64_le, varint, VarintError, WIRE_FIXED32, WIRE_LEN,
    WIRE_VARINT,
};
use vstd::prelude::*;
use vstd::slice::slice_subrange;

verus! {

/// Tag byte of field 1, a variable-length integer.
pub const TAG_1_VARINT: u8 = 0x08;

/// Tag byte of field 1, length-delimited.
pub const TAG_1_LEN: u8 = 0x0a;

/// Tag byte of field 2, a variable-length integer.
pub const TAG_2_VARINT: u8 = 0x10;

/// Tag byte of field 2, length-delimited.
pub const TAG_2_LEN: u8 = 0x12;

/// Tag byte of field 4, length-delimited.
pub const TAG_4_LEN: u8 = 0x22;

/// Tag byte of field 11, length-delimited: the contract of a transaction.
pub const TAG_CONTRACT: u8 = 0x5a;

/// The last byte of a transaction that succeeded.
pub const SUCCESS_MARKER: u8 = 0x01;

/// Contract type of a call into a smart contract.
pub const CALL_TRIGGER_SMART_CONTRACT: u64 = 31;

/// Contract type of a vote for block producers.
pub const CALL_VOTE_WITNESS: u64 = 4;

/// Length of an address with its one-byte chain prefix.
pub const PREFIXED_ADDRESS_LEN: u64 = 21;

/// Length of the shortest call data that holds a transfer: the selector and
/// two 32-byte slots.
pub const TRANSFER_DATA_LEN: u64 = 68;

/// Each tag byte holds the field number and the wire type that its name
/// says.
pub proof fn lemma_tag_bytes()
    ensures
        TAG_1_VARINT == tag(1, WIRE_VARINT),
        TAG_1_LEN == tag(1, WIRE_LEN),
        TAG_2_VARINT == tag(2, WIRE_VARINT),
        TAG_2_LEN == tag(2, WIRE_LEN),
        TAG_4_LEN == tag(4, WIRE_LEN),
        TAG_CONTRACT == tag(11, WIRE_LEN),
{
}

/// The token contract's address, with its chain prefix.
pub open spec fn token_contract() -> Seq<u8> {
    seq![
        0x41u8, 0xa6, 0x14, 0xf8, 0x03, 0xb6, 0xfd, 0x78, 0x09, 0x86, 0xa4, 0x2c, 0x78, 0xec, 0x9c,
        0x7f, 0x77, 0xe6, 0xde, 0xd1, 0x3c,
    ]
}

/// The selector of `transfer(address,uint256)`.
pub open spec fn transfer_selector() -> Seq<u8> {
    seq![0xa9u8, 0x05, 0x9c, 0xbb]
}

/// A transfer of the token.
#[derive(Clone, Copy, Debug, PartialEq, Eq)]
pub struct UsdtTransfer {
    /// The receiver.
    pub to: [u8; 20],
    /// The amount.
    pub value: u64,
}

/// Votes given to one block producer.
#[derive(Clone, Copy, Debug, PartialEq, Eq)]
pub struct Vote {
    /// The producer voted for.
    pub witness_address: [u8; 20],
    /// The number of votes.
    pub votes_count: u64,
}

/// A vote transaction.
#[derive(Clone, Debug, PartialEq, Eq)]
pub struct VoteTx {
    /// Who votes.
    pub voter: [u8; 20],
    /// The votes, in the order of the transaction.
    pub votes: Vec<Vote>,
}

/// Why a transaction is not merely unrecognized but corrupt.
#[derive(Clone, Copy, Debug, PartialEq, Eq, Structural)]
pub enum TxError {
    /// A field before the contract has a wire type other than
    /// variable-length integer, length-delimited or four bytes.
    UnknownWireType,
    /// A variable-length integer does not fit in 64 bits.
    VarintOverflow,
}

/// A position as a mathematical integer.
pub open spec fn at_int(r: Result<Option<usize>, TxError>) -> Result<Option<int>, TxError> {
    match r {
        Ok(Some(at)) => Ok(Some(at as int)),
        Ok(None) => Ok(None),
        Err(e) => Err(e),
    }
}

/// A value with a position as a mathematical integer.
pub open spec fn with_int<T>(r: Result<Option<(T, usize)>, TxError>) -> Result<
    Option<(T, int)>,
    TxError,
> {
    match r {
        Ok(Some((value, at))) => Ok(Some((value, at as int))),
        Ok(None) => Ok(None),
        Err(e) => Err(e),
    }
}

/// The head of the field at `at`: the tag byte `tag` and an integer. Gives the
/// integer and the position after it; not recognized where the tag differs
/// or the input ends first.
pub open spec fn field_head(tx: Seq<u8>, at: int, tag: u8) -> Result<Option<(u64, int)>, TxError> {
    if at < 0 || at >= tx.len() || tx[at] != tag {
        Ok(None)
    } else {
        match varint(tx.subrange(at + 1, tx.len() as int)) {
            Ok((value, n)) => Ok(Some((value, at + 1 + n))),
            Err(VarintError::Truncated) => Ok(None),
            Err(VarintError::Overflow) => Err(TxError::VarintOverflow),
        }
    }
}

/// Steps into the length-delimited field at `at`: the position of its first
/// byte. The length it announces is read and not used.
pub open spec fn enter(tx: Seq<u8>, at: int, tag: u8) -> Result<Option<int>, TxError> {
    match field_head(tx, at, tag) {
        Ok(Some((_, inside))) => Ok(Some(inside)),
        Ok(None) => Ok(None),
        Err(e) => Err(e),
    }
}

/// Steps over the length-delimited field at `at`: the position after its last
/// byte; not recognized where the input ends before that.
pub open spec fn pass(tx: Seq<u8>, at: int, tag: u8) -> Result<Option<int>, TxError> {
    match field_head(tx, at, tag) {
        Ok(Some((length, inside))) => if inside + length > tx.len() {
            Ok(None)
        } else {
            Ok(Some(inside + length))
        },
        Ok(None) => Ok(None),
        Err(e) => Err(e),
    }
}

/// The address in the length-delimited field at `at`: 21 bytes, of which the
/// first, the chain prefix, is dropped. Gives the address and the position
/// after the field.
pub open spec fn prefixed_address(tx: Seq<u8>, at: int, tag: u8) -> Result<
    Option<([u8; 20], int)>,
    TxError,
> {
    match field_head(tx, at, tag) {
        Ok(Some((length, inside))) => if length != PREFIXED_ADDRESS_LEN || inside + 21 > tx.len() {
            Ok(None)
        } else {
            Ok(Some((array_of::<20>(tx.subrange(inside + 1, inside + 21)), inside + 21)))
        },
        Ok(None) => Ok(None),
        Err(e) => Err(e),
    }
}

/// The number of bytes of `tx` from `at` on.
pub open spec fn remaining(tx: Seq<u8>, at: int) -> nat {
    if at < tx.len() {
        (tx.len() - at) as nat
    } else {
        0
    }
}

/// The position of the first contract field at or after `at`, passing over
/// the fields before it: an integer field by its integer, a length-delimited
/// one by its length and payload, a four-byte one by its four bytes. Not
/// recognized where the input ends first; corrupt where a field has another
/// wire type.
pub open spec fn seek_contract(tx: Seq<u8>, at: int) -> Result<Option<int>, TxError>
    decreases remaining(tx, at),
{
    if at < 0 || at >= tx.len() {
        Ok(None)
    } else if tx[at] == TAG_CONTRACT {
        Ok(Some(at))
    } else if tx[at] % 8 == WIRE_FIXED32 {
        seek_contract(tx, at + 5)
    } else if tx[at] % 8 == WIRE_VARINT || tx[at] % 8 == WIRE_LEN {
        match varint(tx.subrange(at + 1, tx.len() as int)) {
            Ok((value, n)) => seek_contract(
                tx,
                at + 1 + n + if tx[at] % 8 == WIRE_LEN {
                    value as int
                } else {
                    0
                },
            ),
            Err(VarintError::Truncated) => Ok(None),
            Err(VarintError::Overflow) => Err(TxError::VarintOverflow),
        }
    } else {
        Err(TxError::UnknownWireType)
    }
}

/// The contract type of a transaction and the position after it.
///
/// The transaction must end with the success marker and start with field 1,
/// length-delimited. Inside it the first contract field is looked for and
/// entered; it must start with field 1, the contract type.
pub open spec fn contract_type(tx: Seq<u8>) -> Result<Option<(u64, int)>, TxError> {
    if tx.len() == 0 || tx.last() != SUCCESS_MARKER {
        Ok(None)
    } else {
        match enter(tx, 0, TAG_1_LEN) {
            Ok(Some(body)) => match seek_contract(tx, body) {
                Ok(Some(contract)) => match enter(tx, contract, TAG_CONTRACT) {
                    Ok(Some(inside)) => field_head(tx, inside, TAG_1_VARINT),
                    Ok(None) => Ok(None),
                    Err(e) => Err(e),
                },
                Ok(None) => Ok(None),
                Err(e) => Err(e),
            },
            Ok(None) => Ok(None),
            Err(e) => Err(e),
        }
    }
}

/// The position of the message that a contract carries, given the position
/// `at` after the contract type: field 2 is entered, its field 1 (the name of
/// the message's type) stepped over, and its field 2 entered.
pub open spec fn contract_message(tx: Seq<u8>, at: int) -> Result<Option<int>, TxError> {
    match enter(tx, at, TAG_2_LEN) {
        Ok(Some(parameter)) => match pass(tx, parameter, TAG_1_LEN) {
            Ok(Some(value)) => enter(tx, value, TAG_2_LEN),
            Ok(None) => Ok(None),
            Err(e) => Err(e),
        },
        Ok(None) => Ok(None),
        Err(e) => Err(e),
    }
}

/// The transfer in the call data at `at`: field 4, length-delimited, at least
/// 68 bytes that start with the transfer selector. The receiver is bytes 16
/// to 35 of the data, the amount bytes 60 to 67, least significant first.
pub open spec fn transfer_call(tx: Seq<u8>, at: int) -> Result<Option<UsdtTransfer>, TxError> {
    match field_head(tx, at, TAG_4_LEN) {
        Ok(Some((length, data))) => if length < TRANSFER_DATA_LEN || data + length > tx.len()
            || tx.subrange(data, data + 4) != transfer_selector() {
            Ok(None)
        } else {
            Ok(
                Some(
                    UsdtTransfer {
                        to: array_of::<20>(tx.subrange(data + 16, data + 36)),
                        value: u64_le(tx.subrange(data + 60, data + 68)) as u64,
                    },
                ),
            )
        },
        Ok(None) => Ok(None),
        Err(e) => Err(e),
    }
}

/// The token transfer that a transaction makes.
///
/// The contract must be of type 31. In its message, field 1 (the caller) is
/// stepped over; field 2 must hold the token contract's address, prefix
/// included; the call data follows.
#[verifier::opaque]
pub open spec fn transfer_of(tx: Seq<u8>) -> Result<Option<UsdtTransfer>, TxError> {
    match contract_type(tx) {
        Ok(Some((call, at))) => if call != CALL_TRIGGER_SMART_CONTRACT {
            Ok(None)
        } else {
            match contract_message(tx, at) {
                Ok(Some(message)) => match pass(tx, message, TAG_1_LEN) {
                    Ok(Some(callee)) => match field_head(tx, callee, TAG_2_LEN) {
                        Ok(Some((length, address))) => if length != PREFIXED_ADDRESS_LEN || address
                            + 21 > tx.len() || tx.subrange(address, address + 21)
                            != token_contract() {
                            Ok(None)
                        } else {
                            transfer_call(tx, address + 21)
                        },
                        Ok(None) => Ok(None),
                        Err(e) => Err(e),
                    },
                    Ok(None) => Ok(None),
                    Err(e) => Err(e),
                },
                Ok(None) => Ok(None),
                Err(e) => Err(e),
            }
        },
        Ok(None) => Ok(None),
        Err(e) => Err(e),
    }
}

/// The vote in the field at `at` and the position after it: field 2 is
/// entered; its field 1 holds the producer's address with prefix, its
/// field 2 the number of votes.
pub open spec fn vote_at(tx: Seq<u8>, at: int) -> Result<Option<(Vote, int)>, TxError> {
    match enter(tx, at, TAG_2_LEN) {
        Ok(Some(inside)) => match prefixed_address(tx, inside, TAG_1_LEN) {
            Ok(Some((witness_address, count_at))) => match field_head(
                tx,
                count_at,
                TAG_2_VARINT,
            ) {
                Ok(Some((votes_count, next))) => Ok(
                    Some((Vote { witness_address, votes_count }, next)),
                ),
                Ok(None) => Ok(None),
                Err(e) => Err(e),
            },
            Ok(None) => Ok(None),
            Err(e) => Err(e),
        },
        Ok(None) => Ok(None),
        Err(e) => Err(e),
    }
}

/// The votes from `at` on: one for each field 2 in a row. The first byte that
/// is not that field's tag ends them.
pub open spec fn votes_from(tx: Seq<u8>, at: int) -> Result<Option<Seq<Vote>>, TxError>
    decreases remaining(tx, at),
{
    if at < 0 || at >= tx.len() || tx[at] != TAG_2_LEN {
        Ok(Some(Seq::empty()))
    } else {
        match vote_at(tx, at) {
            Ok(Some((vote, next))) => match votes_from(tx, next) {
                Ok(Some(rest)) => Ok(Some(seq![vote] + rest)),
                Ok(None) => Ok(None),
                Err(e) => Err(e),
            },
            Ok(None) => Ok(None),
            Err(e) => Err(e),
        }
    }
}

/// The voter and the votes of a vote transaction.
///
/// The contract must be of type 4. In its message, field 1 holds the voter's
/// address with prefix; the votes follow.
#[verifier::opaque]
pub open spec fn votes_of(tx: Seq<u8>) -> Result<Option<([u8; 20], Seq<Vote>)>, TxError> {
    match contract_type(tx) {
        Ok(Some((call, at))) => if call != CALL_VOTE_WITNESS {
            Ok(None)
        } else {
            match contract_message(tx, at) {
                Ok(Some(message)) => match prefixed_address(tx, message, TAG_1_LEN) {
                    Ok(Some((voter, first))) => match votes_from(tx, first) {
                        Ok(Some(votes)) => Ok(Some((voter, votes))),
                        Ok(None) => Ok(None),
                        Err(e) => Err(e),
                    },
                    Ok(None) => Ok(None),
                    Err(e) => Err(e),
                },
                Ok(None) => Ok(None),
                Err(e) => Err(e),
            }
        },
        Ok(None) => Ok(None),
        Err(e) => Err(e),
    }
}

/// Reads the head of the field at `at`.
fn read_field_head(tx: &[u8], at: usize, tag: u8) -> (r: Result<Option<(u64, usize)>, TxError>)
    ensures
        with_int(r) == field_head(tx@, at as int, tag),
        r matches Ok(Some((_, next))) ==> at < next <= tx.len(),
{
    if at >= tx.len() || tx[at] != tag {
        return Ok(None);
    }
    match read_varint(slice_subrange(tx, at + 1, tx.len())) {
        Ok((value, n)) => Ok(Some((value, at + 1 + n))),
        Err(VarintError::Truncated) => Ok(None),
        Err(VarintError::Overflow) => Err(TxError::VarintOverflow),
    }
}

/// Steps into the length-delimited field at `at`.
fn enter_field(tx: &[u8], at: usize, tag: u8) -> (r: Result<Option<usize>, TxError>)
    ensures
        at_int(r) == enter(tx@, at as int, tag),
        r matches Ok(Some(next)) ==> at < next <= tx.len(),
{
    match read_field_head(tx, at, tag) {
        Ok(Some((_, inside))) => Ok(Some(inside)),
        Ok(None) => Ok(None),
        Err(e) => Err(e),
    }
}

/// Steps over the length-delimited field at `at`.
fn pass_field(tx: &[u8], at: usize, tag: u8) -> (r: Result<Option<usize>, TxError>)
    ensures
        at_int(r) == pass(tx@, at as int, tag),
        r matches Ok(Some(next)) ==> at < next <= tx.len(),
{
    match read_field_head(tx, at, tag) {
        Ok(Some((length, inside))) => {
            if length > (tx.len() - inside) as u64 {
                Ok(None)
            } else {
                Ok(Some(inside + length as usize))
            }
        },
        Ok(None) => Ok(None),
        Err(e) => Err(e),
    }
}

/// Reads the address with prefix in the length-delimited field at `at`.
fn read_prefixed_address(tx: &[u8], at: usize, tag: u8) -> (r: Result<
    Option<([u8; 20], usize)>,
    TxError,
>)
    ensures
        with_int(r) == prefixed_address(tx@, at as int, tag),
        r matches Ok(Some((_, next))) ==> at < next <= tx.len(),
{
    match read_field_head(tx, at, tag) {
        Ok(Some((length, inside))) => {
            if length != PREFIXED_ADDRESS_LEN || tx.len() - inside < 21 {
                Ok(None)
            } else {
                Ok(Some((take_array::<20>(tx, inside + 1), inside + 21)))
            }
        },
        Ok(None) => Ok(None),
        Err(e) => Err(e),
    }
}

/// Looks for the first contract field at or after `at`.
fn find_contract(tx: &[u8], at: usize) -> (r: Result<Option<usize>, TxError>)
    ensures
        at_int(r) == seek_contract(tx@, at as int),
        r matches Ok(Some(found)) ==> at <= found < tx.len(),
{
    let len = tx.len();
    let mut offset: usize = at;
    loop
        invariant
            len == tx.len(),
            at <= offset,
            seek_contract(tx@, at as int) == seek_contract(tx@, offset as int),
        decreases remaining(tx@, offset as int),
    {
        if offset >= len {
            return Ok(None);
        }
        let t: u8 = tx[offset];
        if t == TAG_CONTRACT {
            return Ok(Some(offset));
        }
        let wire: u8 = t % 8;
        if wire == WIRE_FIXED32 {
            if len - offset <= 5 {
                assert(seek_contract(tx@, offset + 5) == Ok::<Option<int>, TxError>(None));
                return Ok(None);
            }
            offset += 5;
        } else if wire == WIRE_VARINT || wire == WIRE_LEN {
            match read_varint(slice_subrange(tx, offset + 1, len)) {
                Ok((value, n)) => {
                    let after: usize = offset + 1 + n;
                    if wire == WIRE_LEN {
                        if value >= (len - after) as u64 {
                            assert(seek_contract(tx@, after + value) == Ok::<Option<int>, TxError>(
                                None,
                            ));
                            return Ok(None);
                        }
                        offset = after + value as usize;
                    } else {
                        offset = after;
                    }
                },
                Err(VarintError::Truncated) => {
                    return Ok(None);
                },
                Err(VarintError::Overflow) => {
                    return Err(TxError::VarintOverflow);
                },
            }
        } else {
            return Err(TxError::UnknownWireType);
        }
    }
}

/// Reads the contract type of a transaction.
fn read_contract_type(tx: &[u8]) -> (r: Result<Option<(u64, usize)>, TxError>)
    ensures
        with_int(r) == contract_type(tx@),
        r matches Ok(Some((_, next))) ==> next <= tx.len(),
{
    if tx.len() == 0 || tx[tx.len() - 1] != SUCCESS_MARKER {
        return Ok(None);
    }
    let body = match enter_field(tx, 0, TAG_1_LEN) {
        Ok(Some(next)) => next,
        Ok(None) => {
            return Ok(None);
        },
        Err(e) => {
            return Err(e);
        },
    };
    let contract = match find_contract(tx, body) {
        Ok(Some(next)) => next,
        Ok(None) => {
            return Ok(None);
        },
        Err(e) => {
            return Err(e);
        },
    };
    let inside = match enter_field(tx, contract, TAG_CONTRACT) {
        Ok(Some(next)) => next,
        Ok(None) => {
            return Ok(None);
        },
        Err(e) => {
            return Err(e);
        },
    };
    read_field_head(tx, inside, TAG_1_VARINT)
}

/// Finds the message that a contract carries.
fn enter_contract_message(tx: &[u8], at: usize) -> (r: Result<Option<usize>, TxError>)
    ensures
        at_int(r) == contract_message(tx@, at as int),
        r matches Ok(Some(next)) ==> next <= tx.len(),
{
    let parameter = match enter_field(tx, at, TAG_2_LEN) {
        Ok(Some(next)) => next,
        Ok(None) => {
            return Ok(None);
        },
        Err(e) => {
            return Err(e);
        },
    };
    let value = match pass_field(tx, parameter, TAG_1_LEN) {
        Ok(Some(next)) => next,
        Ok(None) => {
            return Ok(None);
        },
        Err(e) => {
            return Err(e);
        },
    };
    enter_field(tx, value, TAG_2_LEN)
}

/// Reads the transfer in the call data at `at`.
fn read_transfer_call(tx: &[u8], at: usize) -> (r: Result<Option<UsdtTransfer>, TxError>)
    ensures
        r == transfer_call(tx@, at as int),
{
    match read_field_head(tx, at, TAG_4_LEN) {
        Ok(Some((length, data))) => {
            if length < TRANSFER_DATA_LEN || length > (tx.len() - data) as u64 {
                return Ok(None);
            }
            let selector: [u8; 4] = [0xa9, 0x05, 0x9c, 0xbb];
            assert(selector@ =~= transfer_selector());
            if !bytes_equal(slice_subrange(tx, data, data + 4), selector.as_slice()) {
                return Ok(None);
            }
            Ok(
                Some(
                    UsdtTransfer {
                        to: take_array::<20>(tx, data + 16),
                        value: u64_from_le_bytes(tx, data + 60),
                    },
                ),
            )
        },
        Ok(None) => Ok(None),
        Err(e) => Err(e),
    }
}

/// Recognizes a transfer of the token.
///
/// `Ok(None)` means that the transaction is something else and is to be
/// passed over; `Err`, that it is corrupt.
pub fn parse_usdt_transfer(tx: &[u8]) -> (r: Result<Option<UsdtTransfer>, TxError>)
    ensures
        r == transfer_of(tx@),
{
    reveal(transfer_of);
    let (call, at) = match read_contract_type(tx) {
        Ok(Some(pair)) => pair,
        Ok(None) => {
            return Ok(None);
        },
        Err(e) => {
            return Err(e);
        },
    };
    if call != CALL_TRIGGER_SMART_CONTRACT {
        return Ok(None);
    }
    let message = match enter_contract_message(tx, at) {
        Ok(Some(next)) => next,
        Ok(None) => {
            return Ok(None);
        },
        Err(e) => {
            return Err(e);
        },
    };
    let callee = match pass_field(tx, message, TAG_1_LEN) {
        Ok(Some(next)) => next,
        Ok(None) => {
            return Ok(None);
        },
        Err(e) => {
            return Err(e);
        },
    };
    let (length, address) = match read_field_head(tx, callee, TAG_2_LEN) {
        Ok(Some(pair)) => pair,
        Ok(None) => {
            return Ok(None);
        },
        Err(e) => {
            return Err(e);
        },
    };
    if length != PREFIXED_ADDRESS_LEN || tx.len() - address < 21 {
        return Ok(None);
    }
    let contract: [u8; 21] = [
        0x41, 0xa6, 0x14, 0xf8, 0x03, 0xb6, 0xfd, 0x78, 0x09, 0x86, 0xa4, 0x2c, 0x78, 0xec, 0x9c,
        0x7f, 0x77, 0xe6, 0xde, 0xd1, 0x3c,
    ];
    assert(contract@ =~= token_contract());
    if !bytes_equal(slice_subrange(tx, address, address + 21), contract.as_slice()) {
        return Ok(None);
    }
    read_transfer_call(tx, address + 21)
}

/// Reads the vote in the field at `at`.
fn read_vote(tx: &[u8], at: usize) -> (r: Result<Option<(Vote, usize)>, TxError>)
    ensures
        with_int(r) == vote_at(tx@, at as int),
        r matches Ok(Some((_, next))) ==> at < next <= tx.len(),
{
    let inside = match enter_field(tx, at, TAG_2_LEN) {
        Ok(Some(next)) => next,
        Ok(None) => {
            return Ok(None);
        },
        Err(e) => {
            return Err(e);
        },
    };
    let (witness_address, count_at) = match read_prefixed_address(tx, inside, TAG_1_LEN) {
        Ok(Some(pair)) => pair,
        Ok(None) => {
            return Ok(None);
        },
        Err(e) => {
            return Err(e);
        },
    };
    match read_field_head(tx, count_at, TAG_2_VARINT) {
        Ok(Some((votes_count, next))) => Ok(Some((Vote { witness_address, votes_count }, next))),
        Ok(None) => Ok(None),
        Err(e) => Err(e),
    }
}

/// What a parsed vote transaction holds.
pub open spec fn vote_tx_view(r: Result<Option<VoteTx>, TxError>) -> Result<
    Option<([u8; 20], Seq<Vote>)>,
    TxError,
> {
    match r {
        Ok(Some(vote_tx)) => Ok(Some((vote_tx.voter, vote_tx.votes@))),
        Ok(None) => Ok(None),
        Err(e) => Err(e),
    }
}

/// The outcome for the whole input where `collected` came before `at`.
pub open spec fn votes_after(collected: Seq<Vote>, tail: Result<Option<Seq<Vote>>, TxError>)
    -> Result<Option<Seq<Vote>>, TxError> {
    match tail {
        Ok(Some(rest)) => Ok(Some(collected + rest)),
        Ok(None) => Ok(None),
        Err(e) => Err(e),
    }
}

/// What a parsed run of votes holds.
pub open spec fn votes_view(r: Result<Option<Vec<Vote>>, TxError>) -> Result<
    Option<Seq<Vote>>,
    TxError,
> {
    match r {
        Ok(Some(votes)) => Ok(Some(votes@)),
        Ok(None) => Ok(None),
        Err(e) => Err(e),
    }
}

/// Reads the votes from `first` on.
fn read_votes(tx: &[u8], first: usize) -> (r: Result<Option<Vec<Vote>>, TxError>)
    ensures
        votes_view(r) == votes_from(tx@, first as int),
{
    let mut votes: Vec<Vote> = Vec::new();
    let mut offset: usize = first;
    proof {
        let whole = votes_from(tx@, first as int);
        if let Ok(Some(rest)) = whole {
            assert(votes@ + rest =~= rest);
        }
    }
    while offset < tx.len() && tx[offset] == TAG_2_LEN
        invariant
            votes_after(votes@, votes_from(tx@, offset as int)) == votes_from(tx@, first as int),
        decreases remaining(tx@, offset as int),
    {
        let ghost before = votes@;
        let ghost here = votes_from(tx@, offset as int);
        match read_vote(tx, offset) {
            Ok(Some((vote, next))) => {
                votes.push(vote);
                proof {
                    let tail = votes_from(tx@, next as int);
                    assert(vote_at(tx@, offset as int) == Ok::<Option<(Vote, int)>, TxError>(
                        Some((vote, next as int)),
                    ));
                    assert(here == votes_after(seq![vote], tail));
                    if let Ok(Some(rest)) = tail {
                        assert(before + (seq![vote] + rest) =~= votes@ + rest);
                    }
                }
                offset = next;
            },
            Ok(None) => {
                assert(vote_at(tx@, offset as int) == Ok::<Option<(Vote, int)>, TxError>(None));
                assert(here == Ok::<Option<Seq<Vote>>, TxError>(None));
                return Ok(None);
            },
            Err(e) => {
                assert(vote_at(tx@, offset as int) == Err::<Option<(Vote, int)>, TxError>(e));
                assert(here == Err::<Option<Seq<Vote>>, TxError>(e));
                return Err(e);
            },
        }
    }
    assert(votes_from(tx@, offset as int) == Ok::<Option<Seq<Vote>>, TxError>(
        Some(Seq::empty()),
    ));
    assert(votes@ + Seq::<Vote>::empty() =~= votes@);
    Ok(Some(votes))
}

/// Recognizes a vote for block producers.
///
/// `Ok(None)` means that the transaction is something else and is to be
/// passed over; `Err`, that it is corrupt.
pub fn parse_vote_tx(tx: &[u8]) -> (r: Result<Option<VoteTx>, TxError>)
    ensures
        vote_tx_view(r) == votes_of(tx@),
{
    reveal(votes_of);
    let (call, at) = match read_contract_type(tx) {
        Ok(Some(pair)) => pair,
        Ok(None) => {
            return Ok(None);
        },
        Err(e) => {
            return Err(e);
        },
    };
    if call != CALL_VOTE_WITNESS {
        return Ok(None);
    }
    let message = match enter_contract_message(tx, at) {
        Ok(Some(next)) => next,
        Ok(None) => {
            return Ok(None);
        },
        Err(e) => {
            return Err(e);
        },
    };
    let (voter, first) = match read_prefixed_address(tx, message, TAG_1_LEN) {
        Ok(Some(pair)) => pair,
        Ok(None) => {
            return Ok(None);
        },
        Err(e) => {
            return Err(e);
        },
    };
    match read_votes(tx, first) {
        Ok(Some(votes)) => Ok(Some(VoteTx { voter, votes })),
        Ok(None) => Ok(None),
        Err(e) => Err(e),
    }
}

} // verus!
