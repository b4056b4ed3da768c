//! Base-128 variable-length integers and the tag bytes of tagged records.

use vstd::prelude::*;

verus! {

/// Wire type of a field that holds a variable-length integer.
pub const WIRE_VARINT: u8 = 0;

/// Wire type of a field that holds a length and that many bytes.
pub const WIRE_LEN: u8 = 2;

/// Wire type of a field that holds four bytes.
pub const WIRE_FIXED32: u8 = 5;

/// The tag byte of a field: its number in the upper five bits, its wire type
/// in the lower three.
pub open spec fn tag(field: u8, wire: u8) -> u8
    recommends
        field < 32,
        wire < 8,
{
    (field * 8 + wire) as u8
}

/// Why a variable-length integer could not be read.
#[derive(Clone, Copy, Debug, PartialEq, Eq, Structural)]
pub enum VarintError {
    /// The input ends before a byte without the continuation bit.
    Truncated,
    /// The integer does not fit in 64 bits.
    Overflow,
}

/// 128 to the power `k`.
pub open spec fn pow128(k: nat) -> nat
    decreases k,
{
    if k == 0 {
        1
    } else {
        128 * pow128((k - 1) as nat)
    }
}

/// The integer that the first `n` bytes encode: the low seven bits of each
/// byte, least significant group first.
pub open spec fn varint_value(bytes: Seq<u8>, n: nat) -> nat
    decreases n,
{
    if n == 0 {
        0
    } else {
        varint_value(bytes, (n - 1) as nat) + (bytes[n - 1] % 128) as nat * pow128((n - 1) as nat)
    }
}

/// The number of bytes that the integer at the start of `bytes` occupies: up
/// to and including the first byte, at `from` or later, without the
/// continuation bit. `None` where every byte from `from` on has it.
pub open spec fn varint_len(bytes: Seq<u8>, from: nat) -> Option<nat>
    decreases bytes.len() - from,
{
    if from >= bytes.len() {
        None
    } else if bytes[from as int] < 128 {
        Some(from + 1)
    } else {
        varint_len(bytes, from + 1)
    }
}

/// The integer at the start of `bytes` and the number of bytes it occupies.
pub open spec fn varint(bytes: Seq<u8>) -> Result<(u64, usize), VarintError> {
    match varint_len(bytes, 0) {
        None => Err(VarintError::Truncated),
        Some(n) => if varint_value(bytes, n) > u64::MAX {
            Err(VarintError::Overflow)
        } else {
            Ok((varint_value(bytes, n) as u64, n as usize))
        },
    }
}

proof fn lemma_pow128_positive(k: nat)
    ensures
        pow128(k) >= 1,
    decreases k,
{
    if k > 0 {
        lemma_pow128_positive((k - 1) as nat);
    }
}

/// Reads the variable-length integer at the start of `arr`: its value and the
/// number of bytes it occupies.
pub fn read_varint(arr: &[u8]) -> (r: Result<(u64, usize), VarintError>)
    ensures
        r == varint(arr@),
        r matches Ok((_, n)) ==> 1 <= n <= arr.len(),
{
    let mut result: u64 = 0;
    let mut scale: u64 = 1;
    let mut scale_fits: bool = true;
    let mut overflow: bool = false;
    let mut offset: usize = 0;
    while offset < arr.len()
        invariant
            offset <= arr.len(),
            varint_len(arr@, 0) == varint_len(arr@, offset as nat),
            overflow ==> varint_value(arr@, offset as nat) > u64::MAX,
            !overflow ==> result == varint_value(arr@, offset as nat),
            scale_fits ==> scale == pow128(offset as nat),
            !scale_fits ==> pow128(offset as nat) > u64::MAX,
        decreases arr.len() - offset,
    {
        let byte: u8 = arr[offset];
        let group: u64 = (byte % 128) as u64;
        let ghost before = varint_value(arr@, offset as nat);
        let ghost weight = pow128(offset as nat);
        proof {
            lemma_pow128_positive(offset as nat);
            assert(varint_value(arr@, (offset + 1) as nat) == before + group * weight);
            assert(group * weight >= 0) by (nonlinear_arith)
                requires
                    group >= 0,
                    weight >= 1,
            ;
        }
        if !overflow {
            if group == 0 {
                assert(group * weight == 0) by (nonlinear_arith)
                    requires
                        group == 0,
                ;
            } else if !scale_fits {
                overflow = true;
                assert(group * weight > u64::MAX) by (nonlinear_arith)
                    requires
                        group >= 1,
                        weight > u64::MAX,
                ;
            } else {
                assert(group * scale <= 127 * 0xffff_ffff_ffff_ffff) by (nonlinear_arith)
                    requires
                        group <= 127,
                        scale <= 0xffff_ffff_ffff_ffff,
                ;
                let term: u128 = (group as u128) * (scale as u128);
                let sum: u128 = term + (result as u128);
                if sum > 0xffff_ffff_ffff_ffff {
                    overflow = true;
                } else {
                    result = sum as u64;
                }
            }
        }
        if scale_fits {
            if scale > 0xffff_ffff_ffff_ffff / 128 {
                scale_fits = false;
            } else {
                scale = scale * 128;
            }
        }
        offset += 1;
        if byte < 128 {
            assert(varint_len(arr@, (offset - 1) as nat) == Some(offset as nat));
            if overflow {
                return Err(VarintError::Overflow);
            }
            return Ok((result, offset));
        }
    }
    Err(VarintError::Truncated)
}

/// The eight bytes of `x`, most significant first.
#[verifier::opaque]
pub open spec fn u64_be(x: u64) -> Seq<u8> {
    seq![
        (x / 0x100_0000_0000_0000) as u8,
        (x / 0x1_0000_0000_0000 % 256) as u8,
        (x / 0x100_0000_0000 % 256) as u8,
        (x / 0x1_0000_0000 % 256) as u8,
        (x / 0x100_0000 % 256) as u8,
        (x / 0x1_0000 % 256) as u8,
        (x / 0x100 % 256) as u8,
        (x % 256) as u8,
    ]
}

/// Writes `x` as eight bytes, most significant first.
pub fn u64_to_be_bytes(x: u64) -> (bytes: [u8; 8])
    ensures
        bytes@ == u64_be(x),
{
    let bytes: [u8; 8] = [
        (x / 0x100_0000_0000_0000) as u8,
        (x / 0x1_0000_0000_0000 % 256) as u8,
        (x / 0x100_0000_0000 % 256) as u8,
        (x / 0x1_0000_0000 % 256) as u8,
        (x / 0x100_0000 % 256) as u8,
        (x / 0x1_0000 % 256) as u8,
        (x / 0x100 % 256) as u8,
        (x % 256) as u8,
    ];
    reveal(u64_be);
    assert(bytes@ =~= u64_be(x));
    bytes
}

/// The integer that eight bytes hold, least significant first.
pub open spec fn u64_le(bytes: Seq<u8>) -> int
    recommends
        bytes.len() == 8,
{
    bytes[0] + bytes[1] * 0x100 + bytes[2] * 0x1_0000 + bytes[3] * 0x100_0000 + bytes[4]
        * 0x1_0000_0000 + bytes[5] * 0x100_0000_0000 + bytes[6] * 0x1_0000_0000_0000 + bytes[7]
        * 0x100_0000_0000_0000
}

/// Reads the eight bytes of `bytes` that start at `start` as an integer, least
/// significant first.
pub fn u64_from_le_bytes(bytes: &[u8], start: usize) -> (x: u64)
    requires
        start + 8 <= bytes.len(),
    ensures
        x == u64_le(bytes@.subrange(start as int, start + 8)),
{
    let b0: u64 = bytes[start] as u64;
    let b1: u64 = bytes[start + 1] as u64;
    let b2: u64 = bytes[start + 2] as u64;
    let b3: u64 = bytes[start + 3] as u64;
    let b4: u64 = bytes[start + 4] as u64;
    let b5: u64 = bytes[start + 5] as u64;
    let b6: u64 = bytes[start + 6] as u64;
    let b7: u64 = bytes[start + 7] as u64;
    b0 + b1 * 0x100 + b2 * 0x1_0000 + b3 * 0x100_0000 + b4 * 0x1_0000_0000 + b5
        * 0x100_0000_0000 + b6 * 0x1_0000_0000_0000 + b7 * 0x100_0000_0000_0000
}

} // verus!
