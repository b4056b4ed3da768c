//! The data that the state transition works on: actions, orders, the state
//! itself, and the blocks of an execution.

use crate::bytes::{append_bytes, append_zeros, zero_array, zeroed};
use crate::crypto::{digest_of, hash};
use crate::wire::{u64_be, u64_to_be_bytes};
use vstd::prelude::*;

verus! {

/// Number of blocks for which an order looks for transfers to its receiver.
pub const ORDER_TTL: u64 = 100;

/// Time between two blocks, in milliseconds.
pub const BLOCK_TIME: u64 = 3000;

/// Number of a block at which a maintenance period was seen to start.
pub const MAINTENANCE_PERIOD_BLOCK_OFFSET: u32 = 1387;

/// Number of blocks from one maintenance period to the next.
pub const MAINTENANCE_PERIOD_INTERVAL: u32 = 7198;

/// Number of the most recent block producers that must all differ; also the
/// number of newest blocks whose contents are not yet final.
pub const CYCLE_WINDOW: usize = 19;

/// Number of block producers in the producer set.
pub const SR_COUNT: usize = 27;

/// A request to open an order, chained to the request before it.
#[derive(Clone, Copy, Debug, PartialEq, Eq)]
pub struct Action {
    /// The action chain before this action.
    pub prev: [u8; 32],
    /// When the order starts, in the chain's clock.
    pub timestamp: u64,
    /// The receiver whose incoming transfers the order counts.
    pub address: [u8; 20],
    /// Transfers below this amount are not counted.
    pub min_deposit: u64,
    /// The inflow at which the order is complete.
    pub size: u64,
}

/// An active order.
#[derive(Clone, Copy, Debug, PartialEq, Eq)]
pub struct OrderState {
    /// The receiver whose incoming transfers the order counts.
    pub address: [u8; 20],
    /// When the order started, in the chain's clock.
    pub timestamp: u64,
    /// The sum of the transfers counted so far.
    pub inflow: u64,
    /// Transfers below this amount are not counted.
    pub min_deposit: u64,
    /// The inflow at which the order is complete.
    pub size: u64,
}

/// The fields of a new order that its creator supplies.
#[derive(Clone, Copy, Debug, PartialEq, Eq)]
pub struct Order {
    /// When the order starts, in the chain's clock.
    pub timestamp: u64,
    /// The receiver whose incoming transfers the order counts.
    pub address: [u8; 20],
    /// Transfers below this amount are not counted.
    pub min_deposit: u64,
}

/// A block as it is handed in: header bytes, the producer's signature over
/// their digest, and the transactions.
#[derive(Clone, Debug, PartialEq, Eq)]
pub struct RawBlock {
    /// The encoded header.
    pub raw_data: Vec<u8>,
    /// The producer's signature: `r`, `s` and the recovery id, 65 bytes.
    pub signature: Vec<u8>,
    /// The transactions, in ascending order of their digests.
    pub txs: Vec<Vec<u8>>,
}

/// What one transition consumes.
#[derive(Clone, Debug, PartialEq, Eq)]
pub struct Execution {
    /// New actions, oldest first.
    pub actions: Vec<Action>,
    /// New blocks, oldest first.
    pub blocks: Vec<RawBlock>,
}

/// Everything that is kept from one transition to the next.
///
/// `votes` and `orders` are association lists: a key stands for the first
/// entry that holds it.
#[derive(Clone, Debug, PartialEq, Eq)]
pub struct State {
    /// Identifier of the newest block whose contents were applied.
    pub latest_block_id: [u8; 32],
    /// Timestamp of that block.
    pub latest_timestamp: u64,
    /// Producers of the most recent blocks, oldest first.
    pub cycle: Vec<[u8; 20]>,
    /// The current set of block producers.
    pub srs: [[u8; 20]; 27],
    /// Votes counted for each candidate since the last maintenance period.
    pub votes: Vec<([u8; 20], u64)>,
    /// Actions whose time has not come, each with its identifier, oldest
    /// first.
    pub pending_actions: Vec<(Action, [u8; 32])>,
    /// The active orders, each under the identifier of its action.
    pub orders: Vec<([u8; 32], OrderState)>,
    /// Digest of the last action taken in.
    pub action_chain: [u8; 32],
}

/// The mathematical content of a `State`: its fields, with sequences in
/// place of vectors and of the array of producers.
pub struct StateView {
    /// Identifier of the newest block whose contents were applied.
    pub latest_block_id: [u8; 32],
    /// Timestamp of that block.
    pub latest_timestamp: u64,
    /// Producers of the most recent blocks, oldest first.
    pub cycle: Seq<[u8; 20]>,
    /// The current set of block producers.
    pub srs: Seq<[u8; 20]>,
    /// Votes counted for each candidate since the last maintenance period.
    pub votes: Seq<([u8; 20], u64)>,
    /// Actions whose time has not come, each with its identifier.
    pub pending_actions: Seq<(Action, [u8; 32])>,
    /// The active orders, each under the identifier of its action.
    pub orders: Seq<([u8; 32], OrderState)>,
    /// Digest of the last action taken in.
    pub action_chain: [u8; 32],
}

impl View for State {
    type V = StateView;

    open spec fn view(&self) -> StateView {
        StateView {
            latest_block_id: self.latest_block_id,
            latest_timestamp: self.latest_timestamp,
            cycle: self.cycle@,
            srs: self.srs@,
            votes: self.votes@,
            pending_actions: self.pending_actions@,
            orders: self.orders@,
            action_chain: self.action_chain,
        }
    }
}

/// The state before anything happened: all identifiers zero, nothing pending,
/// no orders, no votes.
pub open spec fn initial_state() -> StateView {
    StateView {
        latest_block_id: zero_array::<32>(),
        latest_timestamp: 0,
        cycle: Seq::empty(),
        srs: Seq::new(27, |i: int| zero_array::<20>()),
        votes: Seq::empty(),
        pending_actions: Seq::empty(),
        orders: Seq::empty(),
        action_chain: zero_array::<32>(),
    }
}

impl Default for State {
    fn default() -> (state: State)
        ensures
            state@ == initial_state(),
    {
        let state = State {
            latest_block_id: zeroed::<32>(),
            latest_timestamp: 0,
            cycle: Vec::new(),
            srs: [zeroed::<20>(); 27],
            votes: Vec::new(),
            pending_actions: Vec::new(),
            orders: Vec::new(),
            action_chain: zeroed::<32>(),
        };
        assert(state.srs@ =~= Seq::new(27, |i: int| zero_array::<20>()));
        state
    }
}

/// `count` zero bytes.
pub open spec fn zeros(count: nat) -> Seq<u8> {
    Seq::new(count, |i: int| 0u8)
}

/// An integer in a 32-byte slot: most significant byte first, at the end of
/// the slot.
pub open spec fn uint_slot(x: u64) -> Seq<u8> {
    zeros(24) + u64_be(x)
}

/// An address in a 32-byte slot: at the start of the slot, followed by zeros.
pub open spec fn address_slot(address: [u8; 20]) -> Seq<u8> {
    address@ + zeros(12)
}

/// The 160 bytes that stand for an action: the previous chain value, then one
/// slot each for timestamp, address, minimal deposit and size.
pub open spec fn action_encoding(action: Action) -> Seq<u8> {
    action.prev@ + uint_slot(action.timestamp) + address_slot(action.address) + uint_slot(
        action.min_deposit,
    ) + uint_slot(action.size)
}

/// The identifier of an action: the digest of its encoding. It is also the
/// value of the action chain once the action is taken in.
pub open spec fn action_id(action: Action) -> [u8; 32] {
    digest_of(action_encoding(action))
}

/// Appends an integer in a 32-byte slot.
pub fn append_uint_slot(out: &mut Vec<u8>, x: u64)
    ensures
        final(out)@ == old(out)@ + uint_slot(x),
{
    append_zeros(out, 24);
    let bytes = u64_to_be_bytes(x);
    append_bytes(out, bytes.as_slice());
    assert(out@ =~= old(out)@ + uint_slot(x));
}

impl Action {
    /// Encodes the action as the settlement chain hashes it.
    pub fn abi_encode(&self) -> (encoded: Vec<u8>)
        ensures
            encoded@ == action_encoding(*self),
    {
        let mut encoded: Vec<u8> = Vec::new();
        append_bytes(&mut encoded, self.prev.as_slice());
        append_uint_slot(&mut encoded, self.timestamp);
        append_bytes(&mut encoded, self.address.as_slice());
        append_zeros(&mut encoded, 12);
        append_uint_slot(&mut encoded, self.min_deposit);
        append_uint_slot(&mut encoded, self.size);
        assert(encoded@ =~= action_encoding(*self));
        encoded
    }

    /// Computes the identifier of the action.
    pub fn id(&self) -> (id: [u8; 32])
        ensures
            id == action_id(*self),
    {
        let encoded = self.abi_encode();
        hash(encoded.as_slice())
    }
}

} // verus!
