//! What the state transition does, as functions on the mathematical content
//! of a state.

use crate::block::block_number_of;
use crate::crypto::{digest_of, merkle_root, signer_of};
use crate::election::elected;
use crate::header::{header_of, BlockHeader, HeaderError};
use crate::model::{
    action_id, Action, OrderState, RawBlock, StateView, BLOCK_TIME, CYCLE_WINDOW,
    MAINTENANCE_PERIOD_BLOCK_OFFSET, MAINTENANCE_PERIOD_INTERVAL, ORDER_TTL, SR_COUNT,
};
use crate::transaction::{transfer_of, votes_of, TxError, UsdtTransfer, Vote};
use vstd::prelude::*;

verus! {

/// Why a transition was refused. A refused transition changes nothing.
#[derive(Clone, Copy, Debug, PartialEq, Eq, Structural)]
pub enum StfError {
    /// An action does not name the current action chain as its predecessor.
    ActionChainMismatch,
    /// Fewer than 120 blocks were handed in.
    NotEnoughBlocks,
    /// A block header was rejected.
    Header(HeaderError),
    /// No public key could be recovered from a block's signature.
    SignatureRecovery,
    /// A block was signed by an address outside the producer set.
    UnknownProducer,
    /// A block was signed by the producer of one of the blocks just before it.
    RepeatedProducer,
    /// A block with final contents found no pending action left.
    NoPendingAction,
    /// The transactions of a block do not have the root that its header names.
    MerkleMismatch,
    /// A transaction is corrupt.
    Transaction(TxError),
    /// The inflow of an order does not fit in 64 bits.
    InflowOverflow,
    /// The votes for a candidate do not fit in 64 bits.
    VoteOverflow,
    /// A maintenance period began with fewer than 27 candidates.
    NotEnoughCandidates,
}

/// The state and the orders closed so far.
pub struct Progress {
    /// The state as it stands.
    pub state: StateView,
    /// The orders closed so far, in the order of their closing.
    pub closed: Seq<([u8; 32], OrderState)>,
}

/// Takes in the actions from `from` on: each must name the current action
/// chain as its predecessor; its identifier becomes the new chain value, and
/// it joins the pending actions.
pub open spec fn ingest(s: StateView, actions: Seq<Action>, from: int) -> Result<
    StateView,
    StfError,
>
    decreases actions.len() - from,
{
    if from < 0 || from >= actions.len() {
        Ok(s)
    } else if actions[from].prev != s.action_chain {
        Err(StfError::ActionChainMismatch)
    } else {
        ingest(
            StateView {
                action_chain: action_id(actions[from]),
                pending_actions: s.pending_actions.push((actions[from], action_id(actions[from]))),
                ..s
            },
            actions,
            from + 1,
        )
    }
}

/// The window of recent producers after `producer` made a block: a full
/// window loses its oldest entry first. `None` where `producer` is in the
/// window already.
pub open spec fn advance_cycle(cycle: Seq<[u8; 20]>, producer: [u8; 20]) -> Option<
    Seq<[u8; 20]>,
> {
    let window = if cycle.len() == CYCLE_WINDOW {
        cycle.drop_first()
    } else {
        cycle
    };
    if window.contains(producer) {
        None
    } else {
        Some(window.push(producer))
    }
}

/// Lets `producer` make the next block: it must be in the producer set and
/// must have made none of the blocks in the window, which then moves on.
pub open spec fn allow_producer(s: StateView, producer: [u8; 20]) -> Result<StateView, StfError> {
    if !s.srs.contains(producer) {
        Err(StfError::UnknownProducer)
    } else {
        match advance_cycle(s.cycle, producer) {
            None => Err(StfError::RepeatedProducer),
            Some(cycle) => Ok(StateView { cycle, ..s }),
        }
    }
}

/// The consensus check of a block that is to follow `tip`: its header names
/// `tip` as predecessor, its signer is in the producer set and made none of
/// the blocks in the window. Gives the state with the window advanced, and
/// the header.
pub open spec fn consensus(s: StateView, tip: [u8; 32], block: RawBlock) -> Result<
    (StateView, BlockHeader),
    StfError,
> {
    let digest = digest_of(block.raw_data@);
    match header_of(tip, block.raw_data@, digest) {
        Err(e) => Err(StfError::Header(e)),
        Ok(header) => match signer_of(block.signature@, digest) {
            None => Err(StfError::SignatureRecovery),
            Some(producer) => match allow_producer(s, producer) {
                Err(e) => Err(e),
                Ok(state) => Ok((state, header)),
            },
        },
    }
}

/// The first position at or after `from` of an order for `address`.
pub open spec fn order_for(orders: Seq<([u8; 32], OrderState)>, address: [u8; 20], from: int)
    -> Option<int>
    decreases orders.len() - from,
{
    if from < 0 || from >= orders.len() {
        None
    } else if orders[from].1.address == address {
        Some(from)
    } else {
        order_for(orders, address, from + 1)
    }
}

/// The first position at or after `from` of an order under `id`.
pub open spec fn order_under(orders: Seq<([u8; 32], OrderState)>, id: [u8; 32], from: int)
    -> Option<int>
    decreases orders.len() - from,
{
    if from < 0 || from >= orders.len() {
        None
    } else if orders[from].0 == id {
        Some(from)
    } else {
        order_under(orders, id, from + 1)
    }
}

/// The order that an action opens.
pub open spec fn opened_by(action: Action) -> OrderState {
    OrderState {
        address: action.address,
        timestamp: action.timestamp,
        inflow: 0,
        min_deposit: action.min_deposit,
        size: action.size,
    }
}

/// The orders with `order` put under `id`: in place of the order that was
/// under `id`, or at the end.
pub open spec fn put_order(orders: Seq<([u8; 32], OrderState)>, id: [u8; 32], order: OrderState)
    -> Seq<([u8; 32], OrderState)> {
    match order_under(orders, id, 0) {
        Some(i) => orders.update(i, (id, order)),
        None => orders.push((id, order)),
    }
}

/// Promotes the pending actions that are due at `now`, oldest first. An
/// action whose receiver has an active order closes that order and opens
/// none; any other action opens its order. `Err` where no pending action is
/// left to stay behind.
pub open spec fn promote(p: Progress, now: u64) -> Result<Progress, StfError>
    decreases p.state.pending_actions.len(),
{
    let s = p.state;
    if s.pending_actions.len() == 0 {
        Err(StfError::NoPendingAction)
    } else if s.pending_actions[0].0.timestamp > now {
        Ok(p)
    } else {
        let action = s.pending_actions[0].0;
        let id = s.pending_actions[0].1;
        let rest = s.pending_actions.drop_first();
        match order_for(s.orders, action.address, 0) {
            Some(i) => promote(
                Progress {
                    state: StateView { pending_actions: rest, orders: s.orders.remove(i), ..s },
                    closed: p.closed.push(s.orders[i]),
                },
                now,
            ),
            None => promote(
                Progress {
                    state: StateView {
                        pending_actions: rest,
                        orders: put_order(s.orders, id, opened_by(action)),
                        ..s
                    },
                    closed: p.closed,
                },
                now,
            ),
        }
    }
}

/// Whether an order has outlived its time at `now`.
pub open spec fn expired(order: OrderState, now: u64) -> bool {
    now > order.timestamp + ORDER_TTL * BLOCK_TIME
}

/// The entries whose orders have outlived their time at `now`.
pub open spec fn is_expired_at(now: u64) -> spec_fn(([u8; 32], OrderState)) -> bool {
    |entry: ([u8; 32], OrderState)| expired(entry.1, now)
}

/// The entries whose orders are still in time at `now`.
pub open spec fn is_live_at(now: u64) -> spec_fn(([u8; 32], OrderState)) -> bool {
    |entry: ([u8; 32], OrderState)| !expired(entry.1, now)
}

/// Closes the orders that have outlived their time at `now`, in the order in
/// which they stand.
pub open spec fn sweep(p: Progress, now: u64) -> Progress {
    Progress {
        state: StateView { orders: p.state.orders.filter(is_live_at(now)), ..p.state },
        closed: p.closed + p.state.orders.filter(is_expired_at(now)),
    }
}

/// The digests of the transactions of a block.
pub open spec fn tx_digests(txs: Seq<Vec<u8>>) -> Seq<[u8; 32]> {
    Seq::new(txs.len(), |i: int| digest_of(txs[i]@))
}

/// Credits a transfer: where the receiver has an active order and the amount
/// reaches its minimal deposit, the amount is added to the inflow, and the
/// order is closed once the inflow reaches its size.
pub open spec fn credit(p: Progress, transfer: UsdtTransfer) -> Result<Progress, StfError> {
    match order_for(p.state.orders, transfer.to, 0) {
        None => Ok(p),
        Some(i) => {
            let id = p.state.orders[i].0;
            let order = p.state.orders[i].1;
            if transfer.value < order.min_deposit {
                Ok(p)
            } else if order.inflow + transfer.value > u64::MAX {
                Err(StfError::InflowOverflow)
            } else {
                let paid = OrderState { inflow: (order.inflow + transfer.value) as u64, ..order };
                if paid.inflow >= paid.size {
                    Ok(
                        Progress {
                            state: StateView { orders: p.state.orders.remove(i), ..p.state },
                            closed: p.closed.push((id, paid)),
                        },
                    )
                } else {
                    Ok(
                        Progress {
                            state: StateView {
                                orders: p.state.orders.update(i, (id, paid)),
                                ..p.state
                            },
                            closed: p.closed,
                        },
                    )
                }
            }
        },
    }
}

/// The first position at or after `from` of the votes for `candidate`.
pub open spec fn votes_for(votes: Seq<([u8; 20], u64)>, candidate: [u8; 20], from: int) -> Option<
    int,
>
    decreases votes.len() - from,
{
    if from < 0 || from >= votes.len() {
        None
    } else if votes[from].0 == candidate {
        Some(from)
    } else {
        votes_for(votes, candidate, from + 1)
    }
}

/// The votes with one more vote counted. `None` where a count does not fit in
/// 64 bits.
pub open spec fn count_vote(votes: Seq<([u8; 20], u64)>, vote: Vote) -> Option<
    Seq<([u8; 20], u64)>,
> {
    match votes_for(votes, vote.witness_address, 0) {
        Some(i) => if votes[i].1 + vote.votes_count > u64::MAX {
            None
        } else {
            Some(votes.update(i, (vote.witness_address, (votes[i].1 + vote.votes_count) as u64)))
        },
        None => Some(votes.push((vote.witness_address, vote.votes_count))),
    }
}

/// The votes with the votes of a transaction counted, from `from` on.
pub open spec fn count_votes(votes: Seq<([u8; 20], u64)>, cast: Seq<Vote>, from: int) -> Option<
    Seq<([u8; 20], u64)>,
>
    decreases cast.len() - from,
{
    if from < 0 || from >= cast.len() {
        Some(votes)
    } else {
        match count_vote(votes, cast[from]) {
            None => None,
            Some(counted) => count_votes(counted, cast, from + 1),
        }
    }
}

/// Applies one transaction: a token transfer is credited, the votes of a
/// vote transaction are counted, anything else is passed over.
pub open spec fn apply_tx(p: Progress, tx: Seq<u8>) -> Result<Progress, StfError> {
    match transfer_of(tx) {
        Err(e) => Err(StfError::Transaction(e)),
        Ok(Some(transfer)) => credit(p, transfer),
        Ok(None) => match votes_of(tx) {
            Err(e) => Err(StfError::Transaction(e)),
            Ok(None) => Ok(p),
            Ok(Some((_, cast))) => match count_votes(p.state.votes, cast, 0) {
                None => Err(StfError::VoteOverflow),
                Some(votes) => Ok(Progress { state: StateView { votes, ..p.state }, closed: p.closed }),
            },
        },
    }
}

/// Applies the transactions from `from` on, in their order.
pub open spec fn apply_txs(p: Progress, txs: Seq<Vec<u8>>, from: int) -> Result<Progress, StfError>
    decreases txs.len() - from,
{
    if from < 0 || from >= txs.len() {
        Ok(p)
    } else {
        match apply_tx(p, txs[from]@) {
            Err(e) => Err(e),
            Ok(next) => apply_txs(next, txs, from + 1),
        }
    }
}

/// Whether a maintenance period starts with the block `id`.
pub open spec fn starts_maintenance(id: [u8; 32]) -> bool {
    block_number_of(id@) >= MAINTENANCE_PERIOD_BLOCK_OFFSET && (block_number_of(id@)
        - MAINTENANCE_PERIOD_BLOCK_OFFSET) % (MAINTENANCE_PERIOD_INTERVAL as int) == 0
}

/// At the start of a maintenance period the 27 candidates with the most votes
/// become the producer set, and the window and the votes are emptied.
pub open spec fn maintain(s: StateView) -> Result<StateView, StfError> {
    if !starts_maintenance(s.latest_block_id) {
        Ok(s)
    } else if s.votes.len() < SR_COUNT {
        Err(StfError::NotEnoughCandidates)
    } else {
        Ok(StateView { srs: elected(s.votes), cycle: Seq::empty(), votes: Seq::empty(), ..s })
    }
}

/// Applies the contents of a block whose contents are final: the state
/// moves to the block; due actions are promoted; orders past their time are
/// closed; the transactions are checked against the root that the header
/// names, and applied; and a maintenance period may start.
#[verifier::opaque]
pub open spec fn content(p: Progress, header: BlockHeader, txs: Seq<Vec<u8>>) -> Result<
    Progress,
    StfError,
> {
    let at_block = Progress {
        state: StateView {
            latest_block_id: header.new_block_id,
            latest_timestamp: header.timestamp,
            ..p.state
        },
        closed: p.closed,
    };
    match promote(at_block, header.timestamp) {
        Err(e) => Err(e),
        Ok(promoted) => {
            let swept = sweep(promoted, header.timestamp);
            if merkle_root(tx_digests(txs)) != header.tx_root {
                Err(StfError::MerkleMismatch)
            } else {
                match apply_txs(swept, txs, 0) {
                    Err(e) => Err(e),
                    Ok(applied) => match maintain(applied.state) {
                        Err(e) => Err(e),
                        Ok(state) => Ok(Progress { state, closed: applied.closed }),
                    },
                }
            }
        },
    }
}

/// Processes one block that is to follow `tip`. Gives the progress made and
/// the block's identifier.
#[verifier::opaque]
pub open spec fn process_block(p: Progress, tip: [u8; 32], block: RawBlock, is_final: bool)
    -> Result<(Progress, [u8; 32]), StfError> {
    match consensus(p.state, tip, block) {
        Err(e) => Err(e),
        Ok((state, header)) => if !is_final {
            Ok((Progress { state, closed: p.closed }, header.new_block_id))
        } else {
            match content(Progress { state, closed: p.closed }, header, block.txs@) {
                Err(e) => Err(e),
                Ok(done) => Ok((done, header.new_block_id)),
            }
        },
    }
}

/// Processes the blocks from `from` on. The contents of a block are final
/// when more than `CYCLE_WINDOW` blocks, itself included, stand from it to
/// the end.
pub open spec fn process_blocks(p: Progress, tip: [u8; 32], blocks: Seq<RawBlock>, from: int)
    -> Result<Progress, StfError>
    decreases blocks.len() - from,
{
    if from < 0 || from >= blocks.len() {
        Ok(p)
    } else {
        match process_block(p, tip, blocks[from], blocks.len() - from > CYCLE_WINDOW) {
            Err(e) => Err(e),
            Ok((next, id)) => process_blocks(next, id, blocks, from + 1),
        }
    }
}

/// The state transition: the actions are taken in, then the blocks, of which
/// there must be at least 120, are processed in their order. Gives the new
/// state and the orders closed, in the order of their closing.
pub open spec fn transition(s: StateView, actions: Seq<Action>, blocks: Seq<RawBlock>) -> Result<
    Progress,
    StfError,
> {
    match ingest(s, actions, 0) {
        Err(e) => Err(e),
        Ok(state) => if blocks.len() <= ORDER_TTL + CYCLE_WINDOW {
            Err(StfError::NotEnoughBlocks)
        } else {
            process_blocks(
                Progress { state, closed: Seq::empty() },
                state.latest_block_id,
                blocks,
                0,
            )
        },
    }
}

/// A window that is not full takes in a producer that is not in it.
pub proof fn lemma_window_takes_new_producer(cycle: Seq<[u8; 20]>, producer: [u8; 20])
    requires
        cycle.len() != 19,
        !cycle.contains(producer),
    ensures
        advance_cycle(cycle, producer) == Some(cycle.push(producer)),
{
}

/// A window of 19 producers lets the oldest go for a twentieth: the
/// twentieth may be any producer but the 18 that stay.
pub proof fn lemma_full_window_drops_oldest(cycle: Seq<[u8; 20]>, producer: [u8; 20])
    requires
        cycle.len() == 19,
        forall|i: int| 1 <= i < 19 ==> cycle[i] != producer,
    ensures
        advance_cycle(cycle, producer) == Some(cycle.drop_first().push(producer)),
        advance_cycle(cycle, producer)->Some_0.len() == 19,
{
    assert forall|j: int| 0 <= j < cycle.drop_first().len() implies cycle.drop_first()[j]
        != producer by {
        assert(cycle.drop_first()[j] == cycle[j + 1]);
    }
}

/// A producer that stays in the window is refused.
pub proof fn lemma_window_refuses_repeat(cycle: Seq<[u8; 20]>, producer: [u8; 20], i: int)
    requires
        0 <= i < cycle.len(),
        cycle[i] == producer,
        cycle.len() == 19 ==> i >= 1,
    ensures
        advance_cycle(cycle, producer) is None,
{
    if cycle.len() == 19 {
        assert(cycle.drop_first()[i - 1] == producer);
    }
}

/// With fewer than 120 blocks a transition is refused, whatever the blocks
/// hold.
pub proof fn lemma_too_few_blocks(s: StateView, actions: Seq<Action>, blocks: Seq<RawBlock>)
    requires
        blocks.len() < 120,
    ensures
        transition(s, actions, blocks) is Err,
        ingest(s, actions, 0) is Ok ==> transition(s, actions, blocks) == Err::<
            Progress,
            StfError,
        >(StfError::NotEnoughBlocks),
{
}

/// With 120 blocks or more a transition depends on the actions and the
/// blocks alone: once the actions are taken in, it is what processing the
/// blocks gives.
pub proof fn lemma_enough_blocks(s: StateView, actions: Seq<Action>, blocks: Seq<RawBlock>)
    requires
        blocks.len() >= 120,
        ingest(s, actions, 0) is Ok,
    ensures
        transition(s, actions, blocks) == process_blocks(
            Progress { state: ingest(s, actions, 0)->Ok_0, closed: Seq::empty() },
            ingest(s, actions, 0)->Ok_0.latest_block_id,
            blocks,
            0,
        ),
{
}

} // verus!
