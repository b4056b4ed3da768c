//! The public output of a transition: what the verifier on the settlement
//! chain gets to see.

use crate::bytes::append_bytes;
use crate::crypto::{digest_of, hash};
use crate::model::{append_uint_slot, uint_slot, OrderState, State};
use vstd::prelude::*;

verus! {

/// A closed order as the output names it: the identifier and the inflow.
pub open spec fn settled(entry: ([u8; 32], OrderState)) -> ([u8; 32], u64) {
    (entry.0, entry.1.inflow)
}

/// The closed orders as the output names them.
pub open spec fn settlements(closed: Seq<([u8; 32], OrderState)>) -> Seq<([u8; 32], u64)> {
    Seq::new(closed.len(), |i: int| settled(closed[i]))
}

/// The closed orders one after the other, each as its identifier and its
/// inflow in a 32-byte slot.
pub open spec fn settlements_encoding(closed: Seq<([u8; 32], u64)>) -> Seq<u8>
    decreases closed.len(),
{
    if closed.len() == 0 {
        Seq::empty()
    } else {
        settlements_encoding(closed.drop_last()) + closed.last().0@ + uint_slot(closed.last().1)
    }
}

/// What a transition makes public.
#[derive(Clone, Debug, PartialEq, Eq)]
pub struct PublicValues {
    /// The block that the state stood at before.
    pub old_block_id: [u8; 32],
    /// The block that the state stands at now.
    pub new_block_id: [u8; 32],
    /// The action chain before.
    pub old_action_chain: [u8; 32],
    /// The action chain now.
    pub new_action_chain: [u8; 32],
    /// Digest of the serialized state before.
    pub old_state_hash: [u8; 32],
    /// Digest of the serialized state now.
    pub new_state_hash: [u8; 32],
    /// The closed orders, each with its inflow.
    pub closed_orders: Vec<([u8; 32], u64)>,
}

/// The packed output: the six 32-byte values in the order of the fields,
/// the number of closed orders in a 32-byte slot, and the closed orders.
pub open spec fn packed(values: PublicValues) -> Seq<u8> {
    values.old_block_id@ + values.new_block_id@ + values.old_action_chain@
        + values.new_action_chain@ + values.old_state_hash@ + values.new_state_hash@ + uint_slot(
        values.closed_orders@.len() as u64,
    ) + settlements_encoding(values.closed_orders@)
}

/// Names each closed order by its identifier and its inflow.
pub fn closed_inflows(closed: &Vec<([u8; 32], OrderState)>) -> (list: Vec<([u8; 32], u64)>)
    ensures
        list@ == settlements(closed@),
{
    let mut list: Vec<([u8; 32], u64)> = Vec::new();
    let mut i: usize = 0;
    while i < closed.len()
        invariant
            i <= closed.len(),
            list@ == settlements(closed@).take(i as int),
        decreases closed.len() - i,
    {
        list.push((closed[i].0, closed[i].1.inflow));
        i += 1;
        assert(list@ =~= settlements(closed@).take(i as int));
    }
    assert(list@ =~= settlements(closed@));
    list
}

impl PublicValues {
    /// Packs the output.
    pub fn encode(&self) -> (bytes: Vec<u8>)
        ensures
            bytes@ == packed(*self),
    {
        let mut bytes: Vec<u8> = Vec::new();
        append_bytes(&mut bytes, self.old_block_id.as_slice());
        append_bytes(&mut bytes, self.new_block_id.as_slice());
        append_bytes(&mut bytes, self.old_action_chain.as_slice());
        append_bytes(&mut bytes, self.new_action_chain.as_slice());
        append_bytes(&mut bytes, self.old_state_hash.as_slice());
        append_bytes(&mut bytes, self.new_state_hash.as_slice());
        append_uint_slot(&mut bytes, self.closed_orders.len() as u64);
        let ghost head = bytes@;
        let mut i: usize = 0;
        assert(self.closed_orders@.take(0) =~= Seq::empty());
        assert(bytes@ =~= head + settlements_encoding(self.closed_orders@.take(0)));
        while i < self.closed_orders.len()
            invariant
                i <= self.closed_orders.len(),
                bytes@ == head + settlements_encoding(self.closed_orders@.take(i as int)),
            decreases self.closed_orders.len() - i,
        {
            let ghost before = bytes@;
            append_bytes(&mut bytes, self.closed_orders[i].0.as_slice());
            append_uint_slot(&mut bytes, self.closed_orders[i].1);
            proof {
                let next = self.closed_orders@.take(i + 1);
                assert(next.drop_last() =~= self.closed_orders@.take(i as int));
                assert(next.last() == self.closed_orders@[i as int]);
                assert(bytes@ =~= head + settlements_encoding(next));
            }
            i += 1;
        }
        assert(self.closed_orders@.take(self.closed_orders@.len() as int) =~= self.closed_orders@);
        bytes
    }
}

/// What the transition from a state serialized as `old_bytes`, standing at
/// `old_block_id` with the action chain `old_action_chain`, to the state
/// `after`, serialized as `new_bytes`, makes public.
pub open spec fn commitment(
    old_block_id: [u8; 32],
    old_action_chain: [u8; 32],
    old_bytes: Seq<u8>,
    after: crate::model::StateView,
    new_bytes: Seq<u8>,
    closed: Seq<([u8; 32], OrderState)>,
) -> Seq<u8> {
    old_block_id@ + after.latest_block_id@ + old_action_chain@ + after.action_chain@ + digest_of(
        old_bytes,
    )@ + digest_of(new_bytes)@ + uint_slot(closed.len() as u64) + settlements_encoding(
        settlements(closed),
    )
}

/// Computes the packed public output of a transition.
pub fn commit(
    old_block_id: [u8; 32],
    old_action_chain: [u8; 32],
    old_bytes: &[u8],
    after: &State,
    new_bytes: &[u8],
    closed: &Vec<([u8; 32], OrderState)>,
) -> (bytes: Vec<u8>)
    ensures
        bytes@ == commitment(
            old_block_id,
            old_action_chain,
            old_bytes@,
            after@,
            new_bytes@,
            closed@,
        ),
{
    let values = PublicValues {
        old_block_id,
        new_block_id: after.latest_block_id,
        old_action_chain,
        new_action_chain: after.action_chain,
        old_state_hash: hash(old_bytes),
        new_state_hash: hash(new_bytes),
        closed_orders: closed_inflows(closed),
    };
    values.encode()
}

} // verus!
