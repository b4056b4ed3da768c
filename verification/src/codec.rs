//! The canonical encoding of a state: the bytes whose digest a transition
//! commits to.
//!
//! A fixed head of 644 bytes holds the latest block, its timestamp, the action
//! chain, the 27 producers, and the numbers of entries in the window, the
//! votes, the pending actions and the orders. The entries follow in that
//! order, each kind with a fixed width. Integers are written most significant
//! byte first.

use crate::bytes::{append_bytes, lemma_same_view, take_array, zeroed};
use crate::model::{Action, OrderState, State, StateView};
use crate::wire::{u64_be, u64_to_be_bytes};
use vstd::prelude::*;

verus! {

/// Length of the fixed head of an encoded state.
pub const HEAD_LEN: usize = 644;

/// Width of an entry of the window: an address.
pub const CYCLE_ENTRY_LEN: usize = 20;

/// Width of an entry of the votes: an address and a count.
pub const VOTE_ENTRY_LEN: usize = 28;

/// Width of a pending action: the action's five fields and its identifier.
pub const PENDING_ENTRY_LEN: usize = 108;

/// Width of an order: its identifier and its five fields.
pub const ORDER_ENTRY_LEN: usize = 84;

/// The encodings of the entries of a list, one after the other.
pub open spec fn joined<T>(list: Seq<T>, encoding: spec_fn(T) -> Seq<u8>) -> Seq<u8>
    decreases list.len(),
{
    if list.len() == 0 {
        Seq::empty()
    } else {
        joined(list.drop_last(), encoding) + encoding(list.last())
    }
}

/// An entry of the window as bytes.
pub open spec fn address_encoding() -> spec_fn([u8; 20]) -> Seq<u8> {
    |address: [u8; 20]| address@
}

/// An entry of the votes as bytes: the address, then the count.
pub open spec fn vote_encoding() -> spec_fn(([u8; 20], u64)) -> Seq<u8> {
    |entry: ([u8; 20], u64)| entry.0@ + u64_be(entry.1)
}

/// A pending action as bytes: previous chain value, timestamp, address,
/// minimal deposit, size, and the action's identifier.
pub open spec fn pending_encoding() -> spec_fn((Action, [u8; 32])) -> Seq<u8> {
    |entry: (Action, [u8; 32])|
        entry.0.prev@ + u64_be(entry.0.timestamp) + entry.0.address@ + u64_be(
            entry.0.min_deposit,
        ) + u64_be(entry.0.size) + entry.1@
}

/// An order as bytes: identifier, address, timestamp, inflow, minimal deposit
/// and size.
pub open spec fn order_encoding() -> spec_fn(([u8; 32], OrderState)) -> Seq<u8> {
    |entry: ([u8; 32], OrderState)|
        entry.0@ + entry.1.address@ + u64_be(entry.1.timestamp) + u64_be(entry.1.inflow) + u64_be(
            entry.1.min_deposit,
        ) + u64_be(entry.1.size)
}

/// The fixed head of an encoded state.
pub open spec fn head_encoding(s: StateView) -> Seq<u8> {
    s.latest_block_id@ + u64_be(s.latest_timestamp) + s.action_chain@ + joined(
        s.srs,
        address_encoding(),
    ) + u64_be(s.cycle.len() as u64) + u64_be(s.votes.len() as u64) + u64_be(
        s.pending_actions.len() as u64,
    ) + u64_be(s.orders.len() as u64)
}

/// The encoding of a state.
pub open spec fn state_encoding(s: StateView) -> Seq<u8> {
    head_encoding(s) + joined(s.cycle, address_encoding()) + joined(s.votes, vote_encoding())
        + joined(s.pending_actions, pending_encoding()) + joined(s.orders, order_encoding())
}

/// A state that can be encoded: 27 producers, and no list longer than a
/// 64-bit count can say.
pub open spec fn encodable(s: StateView) -> bool {
    &&& s.srs.len() == 27
    &&& s.cycle.len() <= u64::MAX
    &&& s.votes.len() <= u64::MAX
    &&& s.pending_actions.len() <= u64::MAX
    &&& s.orders.len() <= u64::MAX
}

/// The state that `bytes` encode, if they encode one.
pub open spec fn state_decoding(bytes: Seq<u8>) -> Option<StateView> {
    if exists|s: StateView| encodable(s) && state_encoding(s) == bytes {
        Some(choose|s: StateView| encodable(s) && state_encoding(s) == bytes)
    } else {
        None
    }
}

/// Every entry of an encoding has the width `width`.
pub open spec fn fixed_width<T>(encoding: spec_fn(T) -> Seq<u8>, width: nat) -> bool {
    forall|entry: T| (#[trigger] encoding(entry)).len() == width
}

proof fn lemma_widths()
    ensures
        fixed_width(address_encoding(), 20),
        fixed_width(vote_encoding(), 28),
        fixed_width(pending_encoding(), 108),
        fixed_width(order_encoding(), 84),
        forall|x: u64| (#[trigger] u64_be(x)).len() == 8,
{
    reveal(u64_be);
}

proof fn lemma_joined_len<T>(list: Seq<T>, encoding: spec_fn(T) -> Seq<u8>, width: nat)
    requires
        fixed_width(encoding, width),
    ensures
        joined(list, encoding).len() == list.len() * width,
    decreases list.len(),
{
    if list.len() > 0 {
        lemma_joined_len(list.drop_last(), encoding, width);
        assert(list.drop_last().len() * width + width == list.len() * width) by (nonlinear_arith)
            requires
                list.drop_last().len() + 1 == list.len(),
        ;
    }
}

proof fn lemma_joined_entry<T>(list: Seq<T>, encoding: spec_fn(T) -> Seq<u8>, width: nat, i: int)
    requires
        fixed_width(encoding, width),
        0 <= i < list.len(),
    ensures
        0 <= i * width,
        (i + 1) * width <= joined(list, encoding).len(),
        joined(list, encoding).subrange(i * width, (i + 1) * width) == encoding(list[i]),
    decreases list.len(),
{
    let rest = list.drop_last();
    lemma_joined_len(rest, encoding, width);
    lemma_joined_len(list, encoding, width);
    assert(0 <= i * width && (i + 1) * width == i * width + width && (i + 1) * width
        <= list.len() * width) by (nonlinear_arith)
        requires
            0 <= i < list.len(),
            0 <= width,
    ;
    if i == list.len() - 1 {
        assert(joined(list, encoding).subrange(i * width, (i + 1) * width) =~= encoding(
            list.last(),
        ));
    } else {
        lemma_joined_entry(rest, encoding, width, i);
        assert(rest[i] == list[i]);
        assert(joined(list, encoding).subrange(i * width, (i + 1) * width) =~= joined(
            rest,
            encoding,
        ).subrange(i * width, (i + 1) * width));
    }
}

/// The number that eight bytes hold, most significant first.
pub open spec fn u64_of_be(bytes: Seq<u8>) -> int
    recommends
        bytes.len() == 8,
{
    bytes[0] * 0x100_0000_0000_0000 + bytes[1] * 0x1_0000_0000_0000 + bytes[2] * 0x100_0000_0000
        + bytes[3] * 0x1_0000_0000 + bytes[4] * 0x100_0000 + bytes[5] * 0x1_0000 + bytes[6] * 0x100
        + bytes[7]
}

/// Reading what was written gives the number back.
pub proof fn lemma_u64_be_value(x: u64)
    ensures
        u64_be(x).len() == 8,
        u64_of_be(u64_be(x)) == x,
{
    reveal(u64_be);
    let x = x as int;
    let q1 = x / 0x100;
    let q2 = x / 0x1_0000;
    let q3 = x / 0x100_0000;
    let q4 = x / 0x1_0000_0000;
    let q5 = x / 0x100_0000_0000;
    let q6 = x / 0x1_0000_0000_0000;
    let q7 = x / 0x100_0000_0000_0000;
    assert(x == 0x100 * q1 + x % 256);
    assert(q2 == q1 / 0x100 && q1 == 0x100 * q2 + q1 % 256);
    assert(q3 == q2 / 0x100 && q2 == 0x100 * q3 + q2 % 256);
    assert(q4 == q3 / 0x100 && q3 == 0x100 * q4 + q3 % 256);
    assert(q5 == q4 / 0x100 && q4 == 0x100 * q5 + q4 % 256);
    assert(q6 == q5 / 0x100 && q5 == 0x100 * q6 + q5 % 256);
    assert(q7 == q6 / 0x100 && q6 == 0x100 * q7 + q6 % 256);
    assert(0 <= q7 < 256);
}

proof fn lemma_digits(hi: int, lo: int, scale: int)
    requires
        0 <= lo < scale,
        0 <= hi,
        scale > 0,
    ensures
        (hi * scale + lo) / scale == hi,
        (hi * scale + lo) % scale == lo,
{
    vstd::arithmetic::div_mod::lemma_fundamental_div_mod_converse(hi * scale + lo, scale, hi, lo);
}

/// Writing what was read gives the bytes back.
pub proof fn lemma_u64_be_bytes(bytes: Seq<u8>)
    requires
        bytes.len() == 8,
    ensures
        0 <= u64_of_be(bytes) <= u64::MAX,
        u64_be(u64_of_be(bytes) as u64) == bytes,
{
    let b0 = bytes[0] as int;
    let b1 = bytes[1] as int;
    let b2 = bytes[2] as int;
    let b3 = bytes[3] as int;
    let b4 = bytes[4] as int;
    let b5 = bytes[5] as int;
    let b6 = bytes[6] as int;
    let b7 = bytes[7] as int;
    let x = u64_of_be(bytes);
    let t1 = b0 * 0x100 + b1;
    let t2 = t1 * 0x100 + b2;
    let t3 = t2 * 0x100 + b3;
    let t4 = t3 * 0x100 + b4;
    let t5 = t4 * 0x100 + b5;
    let t6 = t5 * 0x100 + b6;
    let t7 = t6 * 0x100 + b7;
    assert(t7 == x);
    lemma_digits(t6, b7, 0x100);
    lemma_digits(t5, b6 * 0x100 + b7, 0x1_0000);
    lemma_digits(t4, b5 * 0x1_0000 + b6 * 0x100 + b7, 0x100_0000);
    lemma_digits(t3, b4 * 0x100_0000 + b5 * 0x1_0000 + b6 * 0x100 + b7, 0x1_0000_0000);
    lemma_digits(
        t2,
        b3 * 0x1_0000_0000 + b4 * 0x100_0000 + b5 * 0x1_0000 + b6 * 0x100 + b7,
        0x100_0000_0000,
    );
    lemma_digits(
        t1,
        b2 * 0x100_0000_0000 + b3 * 0x1_0000_0000 + b4 * 0x100_0000 + b5 * 0x1_0000 + b6 * 0x100
            + b7,
        0x1_0000_0000_0000,
    );
    lemma_digits(
        b0,
        b1 * 0x1_0000_0000_0000 + b2 * 0x100_0000_0000 + b3 * 0x1_0000_0000 + b4 * 0x100_0000 + b5
            * 0x1_0000 + b6 * 0x100 + b7,
        0x100_0000_0000_0000,
    );
    lemma_digits(b0, b1, 0x100);
    lemma_digits(t1, b2, 0x100);
    lemma_digits(t2, b3, 0x100);
    lemma_digits(t3, b4, 0x100);
    lemma_digits(t4, b5, 0x100);
    lemma_digits(t5, b6, 0x100);
    reveal(u64_be);
    let y = x as u64;
    assert(y == x);
    assert((y / 0x100_0000_0000_0000) as u8 == bytes[0]);
    assert((y / 0x1_0000_0000_0000 % 256) as u8 == bytes[1]);
    assert((y / 0x100_0000_0000 % 256) as u8 == bytes[2]);
    assert((y / 0x1_0000_0000 % 256) as u8 == bytes[3]);
    assert((y / 0x100_0000 % 256) as u8 == bytes[4]);
    assert((y / 0x1_0000 % 256) as u8 == bytes[5]);
    assert((y / 0x100 % 256) as u8 == bytes[6]);
    assert((y % 256) as u8 == bytes[7]);
    assert(u64_be(y) =~= bytes);
}

/// Reads the eight bytes of `bytes` that start at `at` as an integer, most
/// significant first.
pub fn u64_from_be_bytes(bytes: &[u8], at: usize) -> (x: u64)
    requires
        at + 8 <= bytes.len(),
    ensures
        x == u64_of_be(bytes@.subrange(at as int, at + 8)),
        u64_be(x) == bytes@.subrange(at as int, at + 8),
{
    let b0: u64 = bytes[at] as u64;
    let b1: u64 = bytes[at + 1] as u64;
    let b2: u64 = bytes[at + 2] as u64;
    let b3: u64 = bytes[at + 3] as u64;
    let b4: u64 = bytes[at + 4] as u64;
    let b5: u64 = bytes[at + 5] as u64;
    let b6: u64 = bytes[at + 6] as u64;
    let b7: u64 = bytes[at + 7] as u64;
    proof {
        lemma_u64_be_bytes(bytes@.subrange(at as int, at + 8));
    }
    b0 * 0x100_0000_0000_0000 + b1 * 0x1_0000_0000_0000 + b2 * 0x100_0000_0000 + b3
        * 0x1_0000_0000 + b4 * 0x100_0000 + b5 * 0x1_0000 + b6 * 0x100 + b7
}

/// Appending leaves what came before in place, and the appended bytes
/// follow it.
proof fn lemma_append(front: Seq<u8>, back: Seq<u8>)
    ensures
        (front + back).len() == front.len() + back.len(),
        (front + back).subrange(0, front.len() as int) == front,
        (front + back).subrange(front.len() as int, (front.len() + back.len()) as int) == back,
{
    assert((front + back).subrange(0, front.len() as int) =~= front);
    assert((front + back).subrange(front.len() as int, (front.len() + back.len()) as int) =~= back);
}

/// A part of a part is a part of the whole.
proof fn lemma_part(whole: Seq<u8>, from: int, to: int, i: int, j: int)
    requires
        0 <= from <= to <= whole.len(),
        0 <= i <= j <= to - from,
    ensures
        whole.subrange(from, to).subrange(i, j) == whole.subrange(from + i, from + j),
{
    assert(whole.subrange(from, to).subrange(i, j) =~= whole.subrange(from + i, from + j));
}

/// Where the parts of the head of an encoded state lie.
proof fn lemma_head_layout(s: StateView)
    requires
        encodable(s),
    ensures
        ({
            let h = head_encoding(s);
            &&& h.len() == 644
            &&& h.subrange(0, 32) == s.latest_block_id@
            &&& h.subrange(32, 40) == u64_be(s.latest_timestamp)
            &&& h.subrange(40, 72) == s.action_chain@
            &&& h.subrange(72, 612) == joined(s.srs, address_encoding())
            &&& h.subrange(612, 620) == u64_be(s.cycle.len() as u64)
            &&& h.subrange(620, 628) == u64_be(s.votes.len() as u64)
            &&& h.subrange(628, 636) == u64_be(s.pending_actions.len() as u64)
            &&& h.subrange(636, 644) == u64_be(s.orders.len() as u64)
        }),
{
    lemma_widths();
    lemma_joined_len(s.srs, address_encoding(), 20);
    let e1 = s.latest_block_id@;
    let e2 = e1 + u64_be(s.latest_timestamp);
    let e3 = e2 + s.action_chain@;
    let e4 = e3 + joined(s.srs, address_encoding());
    let e5 = e4 + u64_be(s.cycle.len() as u64);
    let e6 = e5 + u64_be(s.votes.len() as u64);
    let e7 = e6 + u64_be(s.pending_actions.len() as u64);
    let e8 = e7 + u64_be(s.orders.len() as u64);
    assert(e8 == head_encoding(s));
    lemma_append(e1, u64_be(s.latest_timestamp));
    lemma_append(e2, s.action_chain@);
    lemma_append(e3, joined(s.srs, address_encoding()));
    lemma_append(e4, u64_be(s.cycle.len() as u64));
    lemma_append(e5, u64_be(s.votes.len() as u64));
    lemma_append(e6, u64_be(s.pending_actions.len() as u64));
    lemma_append(e7, u64_be(s.orders.len() as u64));
    assert(e8.len() == 644);
    assert(e7 == e8.subrange(0, 636) && e6 == e7.subrange(0, 628) && e5 == e6.subrange(0, 620)
        && e4 == e5.subrange(0, 612) && e3 == e4.subrange(0, 72) && e2 == e3.subrange(0, 40)
        && e1 == e2.subrange(0, 32));
    lemma_part(e8, 0, 636, 0, 628);
    lemma_part(e8, 0, 636, 628, 636);
    assert(e6 == e8.subrange(0, 628));
    lemma_part(e8, 0, 628, 0, 620);
    lemma_part(e8, 0, 628, 620, 628);
    assert(e5 == e8.subrange(0, 620));
    lemma_part(e8, 0, 620, 0, 612);
    lemma_part(e8, 0, 620, 612, 620);
    assert(e4 == e8.subrange(0, 612));
    lemma_part(e8, 0, 612, 0, 72);
    lemma_part(e8, 0, 612, 72, 612);
    assert(e3 == e8.subrange(0, 72));
    lemma_part(e8, 0, 72, 0, 40);
    lemma_part(e8, 0, 72, 40, 72);
    assert(e2 == e8.subrange(0, 40));
    lemma_part(e8, 0, 40, 0, 32);
    lemma_part(e8, 0, 40, 32, 40);
}

/// Where the parts of an encoded state lie.
pub proof fn lemma_layout(s: StateView)
    requires
        encodable(s),
    ensures
        ({
            let b = state_encoding(s);
            let c = s.cycle.len() as int;
            let v = s.votes.len() as int;
            let p = s.pending_actions.len() as int;
            let o = s.orders.len() as int;
            &&& b.len() == 644 + 20 * c + 28 * v + 108 * p + 84 * o
            &&& b.subrange(0, 644) == head_encoding(s)
            &&& b.subrange(0, 32) == s.latest_block_id@
            &&& b.subrange(32, 40) == u64_be(s.latest_timestamp)
            &&& b.subrange(40, 72) == s.action_chain@
            &&& b.subrange(72, 612) == joined(s.srs, address_encoding())
            &&& b.subrange(612, 620) == u64_be(c as u64)
            &&& b.subrange(620, 628) == u64_be(v as u64)
            &&& b.subrange(628, 636) == u64_be(p as u64)
            &&& b.subrange(636, 644) == u64_be(o as u64)
            &&& b.subrange(644, 644 + 20 * c) == joined(s.cycle, address_encoding())
            &&& b.subrange(644 + 20 * c, 644 + 20 * c + 28 * v) == joined(s.votes, vote_encoding())
            &&& b.subrange(644 + 20 * c + 28 * v, 644 + 20 * c + 28 * v + 108 * p) == joined(
                s.pending_actions,
                pending_encoding(),
            )
            &&& b.subrange(644 + 20 * c + 28 * v + 108 * p, b.len() as int) == joined(
                s.orders,
                order_encoding(),
            )
        }),
{
    lemma_widths();
    lemma_head_layout(s);
    lemma_joined_len(s.cycle, address_encoding(), 20);
    lemma_joined_len(s.votes, vote_encoding(), 28);
    lemma_joined_len(s.pending_actions, pending_encoding(), 108);
    lemma_joined_len(s.orders, order_encoding(), 84);
    let c = s.cycle.len() as int;
    let v = s.votes.len() as int;
    let p = s.pending_actions.len() as int;
    let o = s.orders.len() as int;
    let e1 = head_encoding(s);
    let e2 = e1 + joined(s.cycle, address_encoding());
    let e3 = e2 + joined(s.votes, vote_encoding());
    let e4 = e3 + joined(s.pending_actions, pending_encoding());
    let e5 = e4 + joined(s.orders, order_encoding());
    assert(e5 == state_encoding(s));
    lemma_append(e1, joined(s.cycle, address_encoding()));
    lemma_append(e2, joined(s.votes, vote_encoding()));
    lemma_append(e3, joined(s.pending_actions, pending_encoding()));
    lemma_append(e4, joined(s.orders, order_encoding()));
    let n4 = 644 + 20 * c + 28 * v + 108 * p;
    let n3 = 644 + 20 * c + 28 * v;
    let n2 = 644 + 20 * c;
    assert(e4 == e5.subrange(0, n4) && e3 == e4.subrange(0, n3) && e2 == e3.subrange(0, n2) && e1
        == e2.subrange(0, 644));
    lemma_part(e5, 0, n4, 0, n3);
    lemma_part(e5, 0, n4, n3, n4);
    assert(e3 == e5.subrange(0, n3));
    lemma_part(e5, 0, n3, 0, n2);
    lemma_part(e5, 0, n3, n2, n3);
    assert(e2 == e5.subrange(0, n2));
    lemma_part(e5, 0, n2, 0, 644);
    lemma_part(e5, 0, n2, 644, n2);
    assert(e1 == e5.subrange(0, 644));
    lemma_part(e5, 0, 644, 0, 32);
    lemma_part(e5, 0, 644, 32, 40);
    lemma_part(e5, 0, 644, 40, 72);
    lemma_part(e5, 0, 644, 72, 612);
    lemma_part(e5, 0, 644, 612, 620);
    lemma_part(e5, 0, 644, 620, 628);
    lemma_part(e5, 0, 644, 628, 636);
    lemma_part(e5, 0, 644, 636, 644);
}

/// Bytes that hold the encodings of the entries of a list, one after the
/// other, are the list's joined encoding.
proof fn lemma_joined_from_entries<T>(
    list: Seq<T>,
    encoding: spec_fn(T) -> Seq<u8>,
    width: nat,
    bytes: Seq<u8>,
)
    requires
        fixed_width(encoding, width),
        bytes.len() == list.len() * width,
        forall|i: int|
            0 <= i < list.len() ==> bytes.subrange(i * width, i * width + width) == encoding(
                #[trigger] list[i],
            ),
    ensures
        joined(list, encoding) == bytes,
    decreases list.len(),
{
    if list.len() == 0 {
        assert(bytes =~= Seq::empty());
    } else {
        let rest = list.drop_last();
        let n = rest.len() as int;
        assert(n * width + width == list.len() * width && 0 <= n * width) by (nonlinear_arith)
            requires
                n + 1 == list.len(),
                0 <= n,
                0 <= width,
        ;
        let front = bytes.subrange(0, n * width);
        assert forall|i: int| 0 <= i < rest.len() implies front.subrange(
            i * width,
            i * width + width,
        ) == encoding(#[trigger] rest[i]) by {
            assert(0 <= i * width && i * width + width <= n * width) by (nonlinear_arith)
                requires
                    0 <= i < n,
                    0 <= width,
            ;
            assert(rest[i] == list[i]);
            assert(front.subrange(i * width, i * width + width) =~= bytes.subrange(
                i * width,
                i * width + width,
            ));
        }
        lemma_joined_from_entries(rest, encoding, width, front);
        assert(list[n] == list.last());
        assert(bytes =~= front + bytes.subrange(n * width, n * width + width));
    }
}

/// Lists with the same joined encoding are the same, where different
/// entries have different encodings.
proof fn lemma_joined_injective<T>(
    a: Seq<T>,
    b: Seq<T>,
    encoding: spec_fn(T) -> Seq<u8>,
    width: nat,
)
    requires
        fixed_width(encoding, width),
        a.len() == b.len(),
        joined(a, encoding) == joined(b, encoding),
        forall|x: T, y: T| #[trigger] encoding(x) == #[trigger] encoding(y) ==> x == y,
    ensures
        a == b,
{
    assert forall|i: int| 0 <= i < a.len() implies a[i] == b[i] by {
        lemma_joined_entry(a, encoding, width, i);
        lemma_joined_entry(b, encoding, width, i);
    }
    assert(a =~= b);
}

proof fn lemma_u64_be_injective(x: u64, y: u64)
    requires
        u64_be(x) == u64_be(y),
    ensures
        x == y,
{
    lemma_u64_be_value(x);
    lemma_u64_be_value(y);
}

/// Equal strings that are split at the same place have equal parts.
proof fn lemma_split(front: Seq<u8>, back: Seq<u8>, other_front: Seq<u8>, other_back: Seq<u8>)
    requires
        front.len() == other_front.len(),
        front + back == other_front + other_back,
    ensures
        front == other_front,
        back == other_back,
{
    lemma_append(front, back);
    lemma_append(other_front, other_back);
}

proof fn lemma_vote_injective(x: ([u8; 20], u64), y: ([u8; 20], u64))
    requires
        vote_encoding()(x) == vote_encoding()(y),
    ensures
        x == y,
{
    lemma_widths();
    lemma_split(x.0@, u64_be(x.1), y.0@, u64_be(y.1));
    lemma_same_view(x.0, y.0);
    lemma_u64_be_injective(x.1, y.1);
}

proof fn lemma_pending_injective(x: (Action, [u8; 32]), y: (Action, [u8; 32]))
    requires
        pending_encoding()(x) == pending_encoding()(y),
    ensures
        x == y,
{
    lemma_widths();
    let x1 = x.0.prev@;
    let x2 = x1 + u64_be(x.0.timestamp);
    let x3 = x2 + x.0.address@;
    let x4 = x3 + u64_be(x.0.min_deposit);
    let x5 = x4 + u64_be(x.0.size);
    let y1 = y.0.prev@;
    let y2 = y1 + u64_be(y.0.timestamp);
    let y3 = y2 + y.0.address@;
    let y4 = y3 + u64_be(y.0.min_deposit);
    let y5 = y4 + u64_be(y.0.size);
    assert(pending_encoding()(x) == x5 + x.1@);
    assert(pending_encoding()(y) == y5 + y.1@);
    lemma_split(x5, x.1@, y5, y.1@);
    lemma_split(x4, u64_be(x.0.size), y4, u64_be(y.0.size));
    lemma_split(x3, u64_be(x.0.min_deposit), y3, u64_be(y.0.min_deposit));
    lemma_split(x2, x.0.address@, y2, y.0.address@);
    lemma_split(x1, u64_be(x.0.timestamp), y1, u64_be(y.0.timestamp));
    lemma_same_view(x.0.prev, y.0.prev);
    lemma_same_view(x.0.address, y.0.address);
    lemma_same_view(x.1, y.1);
    lemma_u64_be_injective(x.0.timestamp, y.0.timestamp);
    lemma_u64_be_injective(x.0.min_deposit, y.0.min_deposit);
    lemma_u64_be_injective(x.0.size, y.0.size);
}

proof fn lemma_order_injective(x: ([u8; 32], OrderState), y: ([u8; 32], OrderState))
    requires
        order_encoding()(x) == order_encoding()(y),
    ensures
        x == y,
{
    lemma_widths();
    let x1 = x.0@;
    let x2 = x1 + x.1.address@;
    let x3 = x2 + u64_be(x.1.timestamp);
    let x4 = x3 + u64_be(x.1.inflow);
    let x5 = x4 + u64_be(x.1.min_deposit);
    let y1 = y.0@;
    let y2 = y1 + y.1.address@;
    let y3 = y2 + u64_be(y.1.timestamp);
    let y4 = y3 + u64_be(y.1.inflow);
    let y5 = y4 + u64_be(y.1.min_deposit);
    assert(order_encoding()(x) == x5 + u64_be(x.1.size));
    assert(order_encoding()(y) == y5 + u64_be(y.1.size));
    lemma_split(x5, u64_be(x.1.size), y5, u64_be(y.1.size));
    lemma_split(x4, u64_be(x.1.min_deposit), y4, u64_be(y.1.min_deposit));
    lemma_split(x3, u64_be(x.1.inflow), y3, u64_be(y.1.inflow));
    lemma_split(x2, u64_be(x.1.timestamp), y2, u64_be(y.1.timestamp));
    lemma_split(x1, x.1.address@, y1, y.1.address@);
    lemma_same_view(x.0, y.0);
    lemma_same_view(x.1.address, y.1.address);
    lemma_u64_be_injective(x.1.timestamp, y.1.timestamp);
    lemma_u64_be_injective(x.1.inflow, y.1.inflow);
    lemma_u64_be_injective(x.1.min_deposit, y.1.min_deposit);
    lemma_u64_be_injective(x.1.size, y.1.size);
}

proof fn lemma_entries_injective()
    ensures
        forall|x: [u8; 20], y: [u8; 20]| #[trigger]
            address_encoding()(x) == #[trigger] address_encoding()(y) ==> x == y,
        forall|x: ([u8; 20], u64), y: ([u8; 20], u64)| #[trigger]
            vote_encoding()(x) == #[trigger] vote_encoding()(y) ==> x == y,
        forall|x: (Action, [u8; 32]), y: (Action, [u8; 32])| #[trigger]
            pending_encoding()(x) == #[trigger] pending_encoding()(y) ==> x == y,
        forall|x: ([u8; 32], OrderState), y: ([u8; 32], OrderState)| #[trigger]
            order_encoding()(x) == #[trigger] order_encoding()(y) ==> x == y,
{
    assert forall|x: [u8; 20], y: [u8; 20]| #[trigger]
        address_encoding()(x) == #[trigger] address_encoding()(y) implies x == y by {
        lemma_same_view(x, y);
    }
    assert forall|x: ([u8; 20], u64), y: ([u8; 20], u64)| #[trigger]
        vote_encoding()(x) == #[trigger] vote_encoding()(y) implies x == y by {
        lemma_vote_injective(x, y);
    }
    assert forall|x: (Action, [u8; 32]), y: (Action, [u8; 32])| #[trigger]
        pending_encoding()(x) == #[trigger] pending_encoding()(y) implies x == y by {
        lemma_pending_injective(x, y);
    }
    assert forall|x: ([u8; 32], OrderState), y: ([u8; 32], OrderState)| #[trigger]
        order_encoding()(x) == #[trigger] order_encoding()(y) implies x == y by {
        lemma_order_injective(x, y);
    }
}

/// Two states with the same encoding are the same state.
pub proof fn lemma_encoding_is_injective(a: StateView, b: StateView)
    requires
        encodable(a),
        encodable(b),
        state_encoding(a) == state_encoding(b),
    ensures
        a == b,
{
    lemma_layout(a);
    lemma_layout(b);
    lemma_widths();
    lemma_entries_injective();
    lemma_same_view(a.latest_block_id, b.latest_block_id);
    lemma_same_view(a.action_chain, b.action_chain);
    lemma_u64_be_injective(a.latest_timestamp, b.latest_timestamp);
    lemma_u64_be_injective(a.cycle.len() as u64, b.cycle.len() as u64);
    lemma_u64_be_injective(a.votes.len() as u64, b.votes.len() as u64);
    lemma_u64_be_injective(a.pending_actions.len() as u64, b.pending_actions.len() as u64);
    lemma_u64_be_injective(a.orders.len() as u64, b.orders.len() as u64);
    lemma_joined_injective(a.srs, b.srs, address_encoding(), 20);
    lemma_joined_injective(a.cycle, b.cycle, address_encoding(), 20);
    lemma_joined_injective(a.votes, b.votes, vote_encoding(), 28);
    lemma_joined_injective(a.pending_actions, b.pending_actions, pending_encoding(), 108);
    lemma_joined_injective(a.orders, b.orders, order_encoding(), 84);
}

/// Decoding the encoding of a state gives the state back.
pub proof fn lemma_decoding_inverts_encoding(s: StateView)
    requires
        encodable(s),
    ensures
        state_decoding(state_encoding(s)) == Some(s),
{
    let found = state_decoding(state_encoding(s))->Some_0;
    lemma_encoding_is_injective(found, s);
}

/// Appends an integer as eight bytes, most significant first.
fn append_u64(out: &mut Vec<u8>, x: u64)
    ensures
        final(out)@ == old(out)@ + u64_be(x),
{
    let bytes = u64_to_be_bytes(x);
    append_bytes(out, bytes.as_slice());
}

/// Appends the encodings of addresses.
fn append_addresses(out: &mut Vec<u8>, list: &[[u8; 20]])
    ensures
        final(out)@ == old(out)@ + joined(list@, address_encoding()),
{
    let mut i: usize = 0;
    assert(list@.take(0) =~= Seq::empty());
    assert(out@ =~= old(out)@ + joined(list@.take(0), address_encoding()));
    while i < list.len()
        invariant
            i <= list.len(),
            out@ == old(out)@ + joined(list@.take(i as int), address_encoding()),
        decreases list.len() - i,
    {
        append_bytes(out, list[i].as_slice());
        proof {
            let next = list@.take(i + 1);
            assert(next.drop_last() =~= list@.take(i as int));
            assert(next.last() == list@[i as int]);
            assert(out@ =~= old(out)@ + joined(next, address_encoding()));
        }
        i += 1;
    }
    assert(list@.take(list@.len() as int) =~= list@);
}

/// Appends the encodings of votes.
fn append_votes(out: &mut Vec<u8>, list: &Vec<([u8; 20], u64)>)
    ensures
        final(out)@ == old(out)@ + joined(list@, vote_encoding()),
{
    let mut i: usize = 0;
    assert(list@.take(0) =~= Seq::empty());
    assert(out@ =~= old(out)@ + joined(list@.take(0), vote_encoding()));
    while i < list.len()
        invariant
            i <= list.len(),
            out@ == old(out)@ + joined(list@.take(i as int), vote_encoding()),
        decreases list.len() - i,
    {
        let ghost before = out@;
        append_bytes(out, list[i].0.as_slice());
        append_u64(out, list[i].1);
        proof {
            let next = list@.take(i + 1);
            assert(next.drop_last() =~= list@.take(i as int));
            assert(next.last() == list@[i as int]);
            assert(out@ =~= before + vote_encoding()(list@[i as int]));
            assert(out@ =~= old(out)@ + joined(next, vote_encoding()));
        }
        i += 1;
    }
    assert(list@.take(list@.len() as int) =~= list@);
}

/// Appends the encodings of pending actions.
fn append_pending(out: &mut Vec<u8>, list: &Vec<(Action, [u8; 32])>)
    ensures
        final(out)@ == old(out)@ + joined(list@, pending_encoding()),
{
    let mut i: usize = 0;
    assert(list@.take(0) =~= Seq::empty());
    assert(out@ =~= old(out)@ + joined(list@.take(0), pending_encoding()));
    while i < list.len()
        invariant
            i <= list.len(),
            out@ == old(out)@ + joined(list@.take(i as int), pending_encoding()),
        decreases list.len() - i,
    {
        let ghost before = out@;
        let (action, id) = list[i];
        append_bytes(out, action.prev.as_slice());
        append_u64(out, action.timestamp);
        append_bytes(out, action.address.as_slice());
        append_u64(out, action.min_deposit);
        append_u64(out, action.size);
        append_bytes(out, id.as_slice());
        proof {
            let next = list@.take(i + 1);
            assert(next.drop_last() =~= list@.take(i as int));
            assert(next.last() == list@[i as int]);
            assert(out@ =~= before + pending_encoding()(list@[i as int]));
            assert(out@ =~= old(out)@ + joined(next, pending_encoding()));
        }
        i += 1;
    }
    assert(list@.take(list@.len() as int) =~= list@);
}

/// Appends the encodings of orders.
fn append_orders(out: &mut Vec<u8>, list: &Vec<([u8; 32], OrderState)>)
    ensures
        final(out)@ == old(out)@ + joined(list@, order_encoding()),
{
    let mut i: usize = 0;
    assert(list@.take(0) =~= Seq::empty());
    assert(out@ =~= old(out)@ + joined(list@.take(0), order_encoding()));
    while i < list.len()
        invariant
            i <= list.len(),
            out@ == old(out)@ + joined(list@.take(i as int), order_encoding()),
        decreases list.len() - i,
    {
        let ghost before = out@;
        let (id, order) = list[i];
        append_bytes(out, id.as_slice());
        append_bytes(out, order.address.as_slice());
        append_u64(out, order.timestamp);
        append_u64(out, order.inflow);
        append_u64(out, order.min_deposit);
        append_u64(out, order.size);
        proof {
            let next = list@.take(i + 1);
            assert(next.drop_last() =~= list@.take(i as int));
            assert(next.last() == list@[i as int]);
            assert(out@ =~= before + order_encoding()(list@[i as int]));
            assert(out@ =~= old(out)@ + joined(next, order_encoding()));
        }
        i += 1;
    }
    assert(list@.take(list@.len() as int) =~= list@);
}

impl State {
    /// Encodes the state.
    pub fn serialize(&self) -> (bytes: Vec<u8>)
        ensures
            bytes@ == state_encoding(self@),
            state_decoding(bytes@) == Some(self@),
    {
        let mut bytes: Vec<u8> = Vec::new();
        append_bytes(&mut bytes, self.latest_block_id.as_slice());
        append_u64(&mut bytes, self.latest_timestamp);
        append_bytes(&mut bytes, self.action_chain.as_slice());
        append_addresses(&mut bytes, self.srs.as_slice());
        append_u64(&mut bytes, self.cycle.len() as u64);
        append_u64(&mut bytes, self.votes.len() as u64);
        append_u64(&mut bytes, self.pending_actions.len() as u64);
        append_u64(&mut bytes, self.orders.len() as u64);
        assert(bytes@ =~= head_encoding(self@));
        append_addresses(&mut bytes, self.cycle.as_slice());
        append_votes(&mut bytes, &self.votes);
        append_pending(&mut bytes, &self.pending_actions);
        append_orders(&mut bytes, &self.orders);
        proof {
            lemma_decoding_inverts_encoding(self@);
        }
        bytes
    }
}

/// Reads `count` addresses that start at `at`.
fn read_addresses(bytes: &[u8], at: usize, count: usize) -> (list: Vec<[u8; 20]>)
    requires
        at + 20 * count <= bytes.len(),
    ensures
        list@.len() == count,
        joined(list@, address_encoding()) == bytes@.subrange(at as int, at + 20 * count),
{
    let mut list: Vec<[u8; 20]> = Vec::new();
    let mut i: usize = 0;
    while i < count
        invariant
            i <= count,
            at + 20 * count <= bytes.len(),
            list@.len() == i,
            forall|j: int|
                0 <= j < i ==> (#[trigger] list@[j])@ == bytes@.subrange(
                    at + 20 * j,
                    at + 20 * j + 20,
                ),
        decreases count - i,
    {
        list.push(take_array::<20>(bytes, at + 20 * i));
        i += 1;
    }
    proof {
        let part = bytes@.subrange(at as int, at + 20 * count);
        lemma_widths();
        assert forall|j: int| 0 <= j < list@.len() implies part.subrange(j * 20, j * 20 + 20)
            == address_encoding()(#[trigger] list@[j]) by {
            lemma_part(bytes@, at as int, at + 20 * count, j * 20, j * 20 + 20);
        }
        lemma_joined_from_entries(list@, address_encoding(), 20, part);
    }
    list
}

/// Reads `count` votes that start at `at`.
fn read_votes(bytes: &[u8], at: usize, count: usize) -> (list: Vec<([u8; 20], u64)>)
    requires
        at + 28 * count <= bytes.len(),
    ensures
        list@.len() == count,
        joined(list@, vote_encoding()) == bytes@.subrange(at as int, at + 28 * count),
{
    let mut list: Vec<([u8; 20], u64)> = Vec::new();
    let mut i: usize = 0;
    while i < count
        invariant
            i <= count,
            at + 28 * count <= bytes.len(),
            list@.len() == i,
            forall|j: int|
                0 <= j < i ==> vote_encoding()(#[trigger] list@[j]) == bytes@.subrange(
                    at + 28 * j,
                    at + 28 * j + 28,
                ),
        decreases count - i,
    {
        let from: usize = at + 28 * i;
        let entry = (take_array::<20>(bytes, from), u64_from_be_bytes(bytes, from + 20));
        assert(vote_encoding()(entry) =~= bytes@.subrange(from as int, from + 28));
        list.push(entry);
        i += 1;
    }
    proof {
        let part = bytes@.subrange(at as int, at + 28 * count);
        lemma_widths();
        assert forall|j: int| 0 <= j < list@.len() implies part.subrange(j * 28, j * 28 + 28)
            == vote_encoding()(#[trigger] list@[j]) by {
            lemma_part(bytes@, at as int, at + 28 * count, j * 28, j * 28 + 28);
        }
        lemma_joined_from_entries(list@, vote_encoding(), 28, part);
    }
    list
}

/// Reads `count` pending actions that start at `at`.
fn read_pending(bytes: &[u8], at: usize, count: usize) -> (list: Vec<(Action, [u8; 32])>)
    requires
        at + 108 * count <= bytes.len(),
    ensures
        list@.len() == count,
        joined(list@, pending_encoding()) == bytes@.subrange(at as int, at + 108 * count),
{
    let mut list: Vec<(Action, [u8; 32])> = Vec::new();
    let mut i: usize = 0;
    while i < count
        invariant
            i <= count,
            at + 108 * count <= bytes.len(),
            list@.len() == i,
            forall|j: int|
                0 <= j < i ==> pending_encoding()(#[trigger] list@[j]) == bytes@.subrange(
                    at + 108 * j,
                    at + 108 * j + 108,
                ),
        decreases count - i,
    {
        let from: usize = at + 108 * i;
        let action = Action {
            prev: take_array::<32>(bytes, from),
            timestamp: u64_from_be_bytes(bytes, from + 32),
            address: take_array::<20>(bytes, from + 40),
            min_deposit: u64_from_be_bytes(bytes, from + 60),
            size: u64_from_be_bytes(bytes, from + 68),
        };
        let entry = (action, take_array::<32>(bytes, from + 76));
        assert(pending_encoding()(entry) =~= bytes@.subrange(from as int, from + 108));
        list.push(entry);
        i += 1;
    }
    proof {
        let part = bytes@.subrange(at as int, at + 108 * count);
        lemma_widths();
        assert forall|j: int| 0 <= j < list@.len() implies part.subrange(j * 108, j * 108 + 108)
            == pending_encoding()(#[trigger] list@[j]) by {
            lemma_part(bytes@, at as int, at + 108 * count, j * 108, j * 108 + 108);
        }
        lemma_joined_from_entries(list@, pending_encoding(), 108, part);
    }
    list
}

/// Reads `count` orders that start at `at`.
fn read_orders(bytes: &[u8], at: usize, count: usize) -> (list: Vec<([u8; 32], OrderState)>)
    requires
        at + 84 * count <= bytes.len(),
    ensures
        list@.len() == count,
        joined(list@, order_encoding()) == bytes@.subrange(at as int, at + 84 * count),
{
    let mut list: Vec<([u8; 32], OrderState)> = Vec::new();
    let mut i: usize = 0;
    while i < count
        invariant
            i <= count,
            at + 84 * count <= bytes.len(),
            list@.len() == i,
            forall|j: int|
                0 <= j < i ==> order_encoding()(#[trigger] list@[j]) == bytes@.subrange(
                    at + 84 * j,
                    at + 84 * j + 84,
                ),
        decreases count - i,
    {
        let from: usize = at + 84 * i;
        let id = take_array::<32>(bytes, from);
        let order = OrderState {
            address: take_array::<20>(bytes, from + 32),
            timestamp: u64_from_be_bytes(bytes, from + 52),
            inflow: u64_from_be_bytes(bytes, from + 60),
            min_deposit: u64_from_be_bytes(bytes, from + 68),
            size: u64_from_be_bytes(bytes, from + 76),
        };
        let entry = (id, order);
        assert(order_encoding()(entry) =~= bytes@.subrange(from as int, from + 84));
        list.push(entry);
        i += 1;
    }
    proof {
        let part = bytes@.subrange(at as int, at + 84 * count);
        lemma_widths();
        assert forall|j: int| 0 <= j < list@.len() implies part.subrange(j * 84, j * 84 + 84)
            == order_encoding()(#[trigger] list@[j]) by {
            lemma_part(bytes@, at as int, at + 84 * count, j * 84, j * 84 + 84);
        }
        lemma_joined_from_entries(list@, order_encoding(), 84, part);
    }
    list
}

/// The length of an encoded state with the given numbers of entries.
pub open spec fn encoded_len(cycle: int, votes: int, pending: int, orders: int) -> int {
    644 + 20 * cycle + 28 * votes + 108 * pending + 84 * orders
}

/// No state is encoded by bytes whose length does not fit the numbers of
/// entries that they announce.
proof fn lemma_wrong_length(bytes: Seq<u8>, c: u64, v: u64, p: u64, o: u64)
    requires
        bytes.len() >= 644,
        u64_be(c) == bytes.subrange(612, 620),
        u64_be(v) == bytes.subrange(620, 628),
        u64_be(p) == bytes.subrange(628, 636),
        u64_be(o) == bytes.subrange(636, 644),
        bytes.len() != encoded_len(c as int, v as int, p as int, o as int),
    ensures
        state_decoding(bytes) is None,
{
    assert forall|s: StateView| encodable(s) implies state_encoding(s) != bytes by {
        if state_encoding(s) == bytes {
            lemma_layout(s);
            lemma_u64_be_injective(c, s.cycle.len() as u64);
            lemma_u64_be_injective(v, s.votes.len() as u64);
            lemma_u64_be_injective(p, s.pending_actions.len() as u64);
            lemma_u64_be_injective(o, s.orders.len() as u64);
        }
    }
}

/// No state is encoded by fewer bytes than the head takes.
proof fn lemma_too_short(bytes: Seq<u8>)
    requires
        bytes.len() < 644,
    ensures
        state_decoding(bytes) is None,
{
    assert forall|s: StateView| encodable(s) implies state_encoding(s) != bytes by {
        lemma_layout(s);
    }
}

impl State {
    /// Decodes a state. `None` where `bytes` are not the encoding of any
    /// state.
    pub fn deserialize(bytes: &[u8]) -> (r: Option<State>)
        ensures
            match r {
                Some(state) => state_decoding(bytes@) == Some(state@) && state_encoding(state@)
                    == bytes@,
                None => state_decoding(bytes@) is None,
            },
    {
        let len = bytes.len();
        if len < HEAD_LEN {
            proof {
                lemma_too_short(bytes@);
            }
            return None;
        }
        let c = u64_from_be_bytes(bytes, 612);
        let v = u64_from_be_bytes(bytes, 620);
        let p = u64_from_be_bytes(bytes, 628);
        let o = u64_from_be_bytes(bytes, 636);
        let expected: u128 = 644 + 20 * (c as u128) + 28 * (v as u128) + 108 * (p as u128) + 84 * (
        o as u128);
        if expected != len as u128 {
            proof {
                lemma_wrong_length(bytes@, c, v, p, o);
            }
            return None;
        }
        let cycle_at: usize = 644;
        let votes_at: usize = cycle_at + 20 * (c as usize);
        let pending_at: usize = votes_at + 28 * (v as usize);
        let orders_at: usize = pending_at + 108 * (p as usize);
        let producers = read_addresses(bytes, 72, 27);
        let mut srs: [[u8; 20]; 27] = [zeroed::<20>(); 27];
        let mut i: usize = 0;
        while i < 27
            invariant
                i <= 27,
                producers@.len() == 27,
                forall|j: int| 0 <= j < i ==> srs@[j] == producers@[j],
            decreases 27 - i,
        {
            srs[i] = producers[i];
            i += 1;
        }
        assert(srs@ =~= producers@);
        let state = State {
            latest_block_id: take_array::<32>(bytes, 0),
            latest_timestamp: u64_from_be_bytes(bytes, 32),
            cycle: read_addresses(bytes, cycle_at, c as usize),
            srs,
            votes: read_votes(bytes, votes_at, v as usize),
            pending_actions: read_pending(bytes, pending_at, p as usize),
            orders: read_orders(bytes, orders_at, o as usize),
            action_chain: take_array::<32>(bytes, 40),
        };
        proof {
            let b = bytes@;
            let head = head_encoding(state@);
            assert(head =~= b.subrange(0, 32) + b.subrange(32, 40) + b.subrange(40, 72)
                + b.subrange(72, 612) + b.subrange(612, 620) + b.subrange(620, 628) + b.subrange(
                628,
                636,
            ) + b.subrange(636, 644));
            assert(head =~= b.subrange(0, 644));
            assert(state_encoding(state@) =~= b.subrange(0, 644) + b.subrange(
                644,
                votes_at as int,
            ) + b.subrange(votes_at as int, pending_at as int) + b.subrange(
                pending_at as int,
                orders_at as int,
            ) + b.subrange(orders_at as int, len as int));
            assert(state_encoding(state@) =~= b);
            lemma_decoding_inverts_encoding(state@);
        }
        Some(state)
    }
}

} // verus!
