//! The state transition function.

use crate::bytes::array_equal;
use crate::crypto::{create_merkle_tree, hash, public_key_to_address, recover_public_key};
use crate::header::{parse_block_header, BlockHeader};
use crate::model::{
    Action, Execution, OrderState, RawBlock, State, BLOCK_TIME, CYCLE_WINDOW,
    MAINTENANCE_PERIOD_BLOCK_OFFSET, MAINTENANCE_PERIOD_INTERVAL, ORDER_TTL, SR_COUNT,
};
use crate::block::block_id_to_number;
use crate::election::elect;
use crate::rules::{
    advance_cycle, allow_producer, apply_tx, apply_txs, consensus, content, count_vote, count_votes, credit,
    expired, ingest, is_expired_at, is_live_at, maintain, opened_by, order_for, order_under,
    process_block, process_blocks, promote, put_order, starts_maintenance, sweep, transition,
    tx_digests, votes_for, Progress, StfError,
};
use crate::transaction::{parse_usdt_transfer, parse_vote_tx, UsdtTransfer, Vote};
use vstd::prelude::*;

verus! {

/// Copies a list of plain values.
pub fn copy_list<T: Copy>(list: &Vec<T>) -> (copy: Vec<T>)
    ensures
        copy@ == list@,
{
    let mut copy: Vec<T> = Vec::new();
    let mut i: usize = 0;
    while i < list.len()
        invariant
            i <= list.len(),
            copy@ == list@.subrange(0, i as int),
        decreases list.len() - i,
    {
        copy.push(list[i]);
        i += 1;
        assert(copy@ =~= list@.subrange(0, i as int));
    }
    assert(copy@ =~= list@);
    copy
}

impl State {
    /// A copy of the state.
    pub fn snapshot(&self) -> (copy: State)
        ensures
            copy@ == self@,
    {
        State {
            latest_block_id: self.latest_block_id,
            latest_timestamp: self.latest_timestamp,
            cycle: copy_list(&self.cycle),
            srs: self.srs,
            votes: copy_list(&self.votes),
            pending_actions: copy_list(&self.pending_actions),
            orders: copy_list(&self.orders),
            action_chain: self.action_chain,
        }
    }
}

/// Takes in new actions: each is checked against the action chain, which
/// then moves on to the action's identifier, and queued.
pub fn take_in_actions(state: &mut State, actions: &Vec<Action>) -> (r: Result<(), StfError>)
    ensures
        match ingest(old(state)@, actions@, 0) {
            Ok(after) => r is Ok && final(state)@ == after,
            Err(e) => r == Err::<(), StfError>(e),
        },
{
    let mut i: usize = 0;
    while i < actions.len()
        invariant
            i <= actions.len(),
            ingest(state@, actions@, i as int) == ingest(old(state)@, actions@, 0),
        decreases actions.len() - i,
    {
        let action: Action = actions[i];
        if !array_equal(&action.prev, &state.action_chain) {
            return Err(StfError::ActionChainMismatch);
        }
        let id = action.id();
        state.action_chain = id;
        state.pending_actions.push((action, id));
        i += 1;
    }
    Ok(())
}

/// Whether `address` is in `list`.
pub fn contains_address(list: &[[u8; 20]], address: &[u8; 20]) -> (found: bool)
    ensures
        found == list@.contains(*address),
{
    let mut i: usize = 0;
    while i < list.len()
        invariant
            i <= list.len(),
            forall|j: int| 0 <= j < i ==> list@[j] != *address,
        decreases list.len() - i,
    {
        if array_equal(&list[i], address) {
            return true;
        }
        i += 1;
    }
    false
}

/// Moves the window of recent producers on by one block. Returns whether the
/// producer was allowed to make the block; the window is unchanged where not.
pub fn move_cycle(cycle: &mut Vec<[u8; 20]>, producer: [u8; 20]) -> (allowed: bool)
    ensures
        match advance_cycle(old(cycle)@, producer) {
            Some(window) => allowed && final(cycle)@ == window,
            None => !allowed && final(cycle)@ == old(cycle)@,
        },
{
    let full = cycle.len() == CYCLE_WINDOW;
    let start: usize = if full {
        1
    } else {
        0
    };
    let ghost window = if full {
        cycle@.drop_first()
    } else {
        cycle@
    };
    let mut i: usize = start;
    assert(window =~= cycle@.subrange(start as int, cycle@.len() as int));
    while i < cycle.len()
        invariant
            start <= i <= cycle.len(),
            cycle@ == old(cycle)@,
            window == cycle@.subrange(start as int, cycle@.len() as int),
            window == if old(cycle)@.len() == CYCLE_WINDOW {
                old(cycle)@.drop_first()
            } else {
                old(cycle)@
            },
            full == (cycle@.len() == CYCLE_WINDOW),
            forall|j: int| start <= j < i ==> cycle@[j] != producer,
        decreases cycle.len() - i,
    {
        if array_equal(&cycle[i], &producer) {
            assert(window[i - start] == producer);
            return false;
        }
        i += 1;
    }
    if full {
        cycle.remove(0);
    }
    assert(cycle@ =~= window);
    cycle.push(producer);
    true
}

/// Lets `producer` make the next block, if it may: the window of recent
/// producers moves on. Nothing changes where it may not.
pub fn take_producer(state: &mut State, producer: [u8; 20]) -> (r: Result<(), StfError>)
    ensures
        match allow_producer(old(state)@, producer) {
            Ok(after) => r is Ok && final(state)@ == after,
            Err(e) => r == Err::<(), StfError>(e) && final(state)@ == old(state)@,
        },
{
    if !contains_address(state.srs.as_slice(), &producer) {
        return Err(StfError::UnknownProducer);
    }
    if !move_cycle(&mut state.cycle, producer) {
        return Err(StfError::RepeatedProducer);
    }
    Ok(())
}

/// Checks that `block` may follow `tip`, and moves the window of recent
/// producers on. Returns the block's header.
pub fn check_consensus(state: &mut State, tip: [u8; 32], block: &RawBlock) -> (r: Result<
    BlockHeader,
    StfError,
>)
    ensures
        match consensus(old(state)@, tip, *block) {
            Ok((after, header)) => r == Ok::<BlockHeader, StfError>(header) && final(state)@
                == after,
            Err(e) => r == Err::<BlockHeader, StfError>(e),
        },
{
    let digest = hash(block.raw_data.as_slice());
    let header = match parse_block_header(tip, block.raw_data.as_slice(), digest) {
        Ok(header) => header,
        Err(e) => {
            return Err(StfError::Header(e));
        },
    };
    let key = match recover_public_key(block.signature.as_slice(), digest) {
        Some(key) => key,
        None => {
            return Err(StfError::SignatureRecovery);
        },
    };
    let producer = public_key_to_address(key.as_slice());
    match take_producer(state, producer) {
        Err(e) => Err(e),
        Ok(()) => Ok(header),
    }
}

/// Finds the order for `address`.
pub fn find_order_for(orders: &Vec<([u8; 32], OrderState)>, address: &[u8; 20]) -> (r: Option<
    usize,
>)
    ensures
        match r {
            Some(i) => i < orders.len() && order_for(orders@, *address, 0) == Some(i as int),
            None => order_for(orders@, *address, 0) is None,
        },
{
    let mut i: usize = 0;
    while i < orders.len()
        invariant
            i <= orders.len(),
            order_for(orders@, *address, 0) == order_for(orders@, *address, i as int),
        decreases orders.len() - i,
    {
        if array_equal(&orders[i].1.address, address) {
            return Some(i);
        }
        i += 1;
    }
    None
}

/// Finds the order under `id`.
pub fn find_order_under(orders: &Vec<([u8; 32], OrderState)>, id: &[u8; 32]) -> (r: Option<usize>)
    ensures
        match r {
            Some(i) => i < orders.len() && order_under(orders@, *id, 0) == Some(i as int),
            None => order_under(orders@, *id, 0) is None,
        },
{
    let mut i: usize = 0;
    while i < orders.len()
        invariant
            i <= orders.len(),
            order_under(orders@, *id, 0) == order_under(orders@, *id, i as int),
        decreases orders.len() - i,
    {
        if array_equal(&orders[i].0, id) {
            return Some(i);
        }
        i += 1;
    }
    None
}

/// Finds the votes for `candidate`.
pub fn find_votes_for(votes: &Vec<([u8; 20], u64)>, candidate: &[u8; 20]) -> (r: Option<usize>)
    ensures
        match r {
            Some(i) => i < votes.len() && votes_for(votes@, *candidate, 0) == Some(i as int),
            None => votes_for(votes@, *candidate, 0) is None,
        },
{
    let mut i: usize = 0;
    while i < votes.len()
        invariant
            i <= votes.len(),
            votes_for(votes@, *candidate, 0) == votes_for(votes@, *candidate, i as int),
        decreases votes.len() - i,
    {
        if array_equal(&votes[i].0, candidate) {
            return Some(i);
        }
        i += 1;
    }
    None
}

/// Puts `order` under `id`.
pub fn insert_order(orders: &mut Vec<([u8; 32], OrderState)>, id: [u8; 32], order: OrderState)
    ensures
        final(orders)@ == put_order(old(orders)@, id, order),
{
    match find_order_under(orders, &id) {
        Some(i) => {
            orders[i] = (id, order);
        },
        None => {
            orders.push((id, order));
        },
    }
}

/// Promotes the pending actions that are due at `now`.
pub fn promote_due(
    state: &mut State,
    closed: &mut Vec<([u8; 32], OrderState)>,
    now: u64,
) -> (r: Result<(), StfError>)
    ensures
        match promote(Progress { state: old(state)@, closed: old(closed)@ }, now) {
            Ok(after) => r is Ok && final(state)@ == after.state && final(closed)@ == after.closed,
            Err(e) => r == Err::<(), StfError>(e),
        },
{
    loop
        invariant
            promote(Progress { state: state@, closed: closed@ }, now) == promote(
                Progress { state: old(state)@, closed: old(closed)@ },
                now,
            ),
        decreases state.pending_actions.len(),
    {
        if state.pending_actions.len() == 0 {
            return Err(StfError::NoPendingAction);
        }
        let (action, id) = state.pending_actions[0];
        if action.timestamp > now {
            return Ok(());
        }
        let ghost before = state@;
        state.pending_actions.remove(0);
        assert(state.pending_actions@ =~= before.pending_actions.drop_first());
        match find_order_for(&state.orders, &action.address) {
            Some(i) => {
                let entry = state.orders.remove(i);
                closed.push(entry);
            },
            None => {
                let order = OrderState {
                    address: action.address,
                    timestamp: action.timestamp,
                    inflow: 0,
                    min_deposit: action.min_deposit,
                    size: action.size,
                };
                assert(order == opened_by(action));
                insert_order(&mut state.orders, id, order);
            },
        }
    }
}

/// Whether an order has outlived its time at `now`.
pub fn is_expired(order: &OrderState, now: u64) -> (r: bool)
    ensures
        r == expired(*order, now),
{
    let lifetime: u64 = ORDER_TTL * BLOCK_TIME;
    now >= lifetime && order.timestamp < now - lifetime
}

/// Closes the orders that have outlived their time at `now`.
pub fn sweep_expired(state: &mut State, closed: &mut Vec<([u8; 32], OrderState)>, now: u64)
    ensures
        final(state)@ == sweep(Progress { state: old(state)@, closed: old(closed)@ }, now).state,
        final(closed)@ == sweep(Progress { state: old(state)@, closed: old(closed)@ }, now).closed,
{
    let mut kept: Vec<([u8; 32], OrderState)> = Vec::new();
    let mut i: usize = 0;
    let ghost all = state.orders@;
    assert(all.take(0) =~= Seq::empty());
    assert(closed@ =~= old(closed)@ + all.take(0).filter(is_expired_at(now)));
    while i < state.orders.len()
        invariant
            i <= state.orders.len(),
            state@ == old(state)@,
            all == state.orders@,
            kept@ == all.take(i as int).filter(is_live_at(now)),
            closed@ == old(closed)@ + all.take(i as int).filter(is_expired_at(now)),
        decreases state.orders.len() - i,
    {
        let entry = state.orders[i];
        proof {
            assert(all.take(i + 1) =~= all.take(i as int).push(entry));
            all.take(i as int).lemma_filter_push(entry, is_live_at(now));
            all.take(i as int).lemma_filter_push(entry, is_expired_at(now));
            assert(is_live_at(now)(entry) == !expired(entry.1, now));
            assert(is_expired_at(now)(entry) == expired(entry.1, now));
        }
        if is_expired(&entry.1, now) {
            closed.push(entry);
            assert(closed@ =~= old(closed)@ + all.take(i + 1).filter(is_expired_at(now)));
        } else {
            kept.push(entry);
        }
        i += 1;
    }
    assert(all.take(all.len() as int) =~= all);
    state.orders = kept;
}

/// Whether the transactions have the Merkle root `root`.
pub fn has_root(txs: &Vec<Vec<u8>>, root: &[u8; 32]) -> (r: bool)
    ensures
        r == (crate::crypto::merkle_root(tx_digests(txs@)) == *root),
{
    let mut digests: Vec<[u8; 32]> = Vec::new();
    let mut i: usize = 0;
    while i < txs.len()
        invariant
            i <= txs.len(),
            digests@ == tx_digests(txs@).take(i as int),
        decreases txs.len() - i,
    {
        digests.push(hash(txs[i].as_slice()));
        i += 1;
        assert(digests@ =~= tx_digests(txs@).take(i as int));
    }
    assert(digests@ =~= tx_digests(txs@));
    let computed = create_merkle_tree(digests.as_slice());
    array_equal(&computed, root)
}

/// Credits a transfer to the order of its receiver, if there is one.
pub fn credit_transfer(
    state: &mut State,
    closed: &mut Vec<([u8; 32], OrderState)>,
    transfer: UsdtTransfer,
) -> (r: Result<(), StfError>)
    ensures
        match credit(Progress { state: old(state)@, closed: old(closed)@ }, transfer) {
            Ok(after) => r is Ok && final(state)@ == after.state && final(closed)@ == after.closed,
            Err(e) => r == Err::<(), StfError>(e),
        },
{
    let i = match find_order_for(&state.orders, &transfer.to) {
        Some(i) => i,
        None => {
            return Ok(());
        },
    };
    let (id, order) = state.orders[i];
    if transfer.value < order.min_deposit {
        return Ok(());
    }
    let inflow = match order.inflow.checked_add(transfer.value) {
        Some(inflow) => inflow,
        None => {
            return Err(StfError::InflowOverflow);
        },
    };
    let paid = OrderState {
        address: order.address,
        timestamp: order.timestamp,
        inflow,
        min_deposit: order.min_deposit,
        size: order.size,
    };
    if paid.inflow >= paid.size {
        state.orders.remove(i);
        closed.push((id, paid));
    } else {
        state.orders[i] = (id, paid);
    }
    Ok(())
}

/// Counts one vote. Returns whether the count fits; nothing changes where it
/// does not.
pub fn count_one_vote(votes: &mut Vec<([u8; 20], u64)>, vote: Vote) -> (fits: bool)
    ensures
        match count_vote(old(votes)@, vote) {
            Some(counted) => fits && final(votes)@ == counted,
            None => !fits && final(votes)@ == old(votes)@,
        },
{
    match find_votes_for(votes, &vote.witness_address) {
        Some(i) => {
            match votes[i].1.checked_add(vote.votes_count) {
                Some(sum) => {
                    votes[i] = (vote.witness_address, sum);
                    true
                },
                None => false,
            }
        },
        None => {
            votes.push((vote.witness_address, vote.votes_count));
            true
        },
    }
}

/// Counts the votes of a transaction. Returns whether every count fits.
pub fn count_all_votes(votes: &mut Vec<([u8; 20], u64)>, cast: &Vec<Vote>) -> (fits: bool)
    ensures
        match count_votes(old(votes)@, cast@, 0) {
            Some(counted) => fits && final(votes)@ == counted,
            None => !fits,
        },
{
    let mut i: usize = 0;
    while i < cast.len()
        invariant
            i <= cast.len(),
            count_votes(votes@, cast@, i as int) == count_votes(old(votes)@, cast@, 0),
        decreases cast.len() - i,
    {
        if !count_one_vote(votes, cast[i]) {
            return false;
        }
        i += 1;
    }
    true
}

/// Applies one transaction.
pub fn apply_transaction(
    state: &mut State,
    closed: &mut Vec<([u8; 32], OrderState)>,
    tx: &[u8],
) -> (r: Result<(), StfError>)
    ensures
        match apply_tx(Progress { state: old(state)@, closed: old(closed)@ }, tx@) {
            Ok(after) => r is Ok && final(state)@ == after.state && final(closed)@ == after.closed,
            Err(e) => r == Err::<(), StfError>(e),
        },
{
    match parse_usdt_transfer(tx) {
        Err(e) => Err(StfError::Transaction(e)),
        Ok(Some(transfer)) => credit_transfer(state, closed, transfer),
        Ok(None) => match parse_vote_tx(tx) {
            Err(e) => Err(StfError::Transaction(e)),
            Ok(None) => Ok(()),
            Ok(Some(vote_tx)) => {
                if count_all_votes(&mut state.votes, &vote_tx.votes) {
                    Ok(())
                } else {
                    Err(StfError::VoteOverflow)
                }
            },
        },
    }
}

/// Applies the transactions of a block, in their order.
pub fn apply_transactions(
    state: &mut State,
    closed: &mut Vec<([u8; 32], OrderState)>,
    txs: &Vec<Vec<u8>>,
) -> (r: Result<(), StfError>)
    ensures
        match apply_txs(Progress { state: old(state)@, closed: old(closed)@ }, txs@, 0) {
            Ok(after) => r is Ok && final(state)@ == after.state && final(closed)@ == after.closed,
            Err(e) => r == Err::<(), StfError>(e),
        },
{
    let mut i: usize = 0;
    while i < txs.len()
        invariant
            i <= txs.len(),
            apply_txs(Progress { state: state@, closed: closed@ }, txs@, i as int) == apply_txs(
                Progress { state: old(state)@, closed: old(closed)@ },
                txs@,
                0,
            ),
        decreases txs.len() - i,
    {
        match apply_transaction(state, closed, txs[i].as_slice()) {
            Err(e) => {
                return Err(e);
            },
            Ok(()) => {},
        }
        i += 1;
    }
    Ok(())
}

/// Whether a maintenance period starts with the block `id`.
pub fn is_maintenance_block(id: &[u8; 32]) -> (r: bool)
    ensures
        r == starts_maintenance(*id),
{
    let number = block_id_to_number(*id);
    number >= MAINTENANCE_PERIOD_BLOCK_OFFSET && (number - MAINTENANCE_PERIOD_BLOCK_OFFSET)
        % MAINTENANCE_PERIOD_INTERVAL == 0
}

/// Replaces the producer set where a maintenance period starts with the
/// latest block.
pub fn run_maintenance(state: &mut State) -> (r: Result<(), StfError>)
    ensures
        match maintain(old(state)@) {
            Ok(after) => r is Ok && final(state)@ == after,
            Err(e) => r == Err::<(), StfError>(e),
        },
{
    if !is_maintenance_block(&state.latest_block_id) {
        return Ok(());
    }
    if state.votes.len() < SR_COUNT {
        return Err(StfError::NotEnoughCandidates);
    }
    state.srs = elect(&state.votes);
    state.cycle = Vec::new();
    state.votes = Vec::new();
    Ok(())
}

/// Applies the contents of a block whose contents are final.
pub fn apply_content(
    state: &mut State,
    closed: &mut Vec<([u8; 32], OrderState)>,
    header: &BlockHeader,
    txs: &Vec<Vec<u8>>,
) -> (r: Result<(), StfError>)
    ensures
        match content(Progress { state: old(state)@, closed: old(closed)@ }, *header, txs@) {
            Ok(after) => r is Ok && final(state)@ == after.state && final(closed)@ == after.closed,
            Err(e) => r == Err::<(), StfError>(e),
        },
{
    reveal(content);
    state.latest_block_id = header.new_block_id;
    state.latest_timestamp = header.timestamp;
    match promote_due(state, closed, header.timestamp) {
        Err(e) => {
            return Err(e);
        },
        Ok(()) => {},
    }
    sweep_expired(state, closed, header.timestamp);
    if !has_root(txs, &header.tx_root) {
        return Err(StfError::MerkleMismatch);
    }
    match apply_transactions(state, closed, txs) {
        Err(e) => {
            return Err(e);
        },
        Ok(()) => {},
    }
    run_maintenance(state)
}

/// Processes the block that is to follow `tip`. Returns the block's
/// identifier.
pub fn process_one_block(
    state: &mut State,
    closed: &mut Vec<([u8; 32], OrderState)>,
    tip: [u8; 32],
    block: &RawBlock,
    is_final: bool,
) -> (r: Result<[u8; 32], StfError>)
    ensures
        match process_block(
            Progress { state: old(state)@, closed: old(closed)@ },
            tip,
            *block,
            is_final,
        ) {
            Ok((after, id)) => r == Ok::<[u8; 32], StfError>(id) && final(state)@ == after.state
                && final(closed)@ == after.closed,
            Err(e) => r == Err::<[u8; 32], StfError>(e),
        },
{
    reveal(process_block);
    let header = match check_consensus(state, tip, block) {
        Ok(header) => header,
        Err(e) => {
            return Err(e);
        },
    };
    if is_final {
        match apply_content(state, closed, &header, &block.txs) {
            Err(e) => {
                return Err(e);
            },
            Ok(()) => {},
        }
    }
    Ok(header.new_block_id)
}

/// Applies an execution to `state`. Where it fails, `state` is left in an
/// intermediate condition.
pub fn apply_execution(state: &mut State, execution: &Execution) -> (r: Result<
    Vec<([u8; 32], OrderState)>,
    StfError,
>)
    ensures
        match transition(old(state)@, execution.actions@, execution.blocks@) {
            Ok(after) => r is Ok && r->Ok_0@ == after.closed && final(state)@ == after.state,
            Err(e) => r is Err && r->Err_0 == e,
        },
{
    match take_in_actions(state, &execution.actions) {
        Err(e) => {
            return Err(e);
        },
        Ok(()) => {},
    }
    let count = execution.blocks.len();
    if count <= ORDER_TTL as usize + CYCLE_WINDOW {
        return Err(StfError::NotEnoughBlocks);
    }
    let mut closed: Vec<([u8; 32], OrderState)> = Vec::new();
    let mut tip: [u8; 32] = state.latest_block_id;
    let ghost start = Progress { state: state@, closed: closed@ };
    let ghost first_tip = tip;
    let mut i: usize = 0;
    while i < count
        invariant
            i <= count,
            count == execution.blocks.len(),
            transition(old(state)@, execution.actions@, execution.blocks@) == process_blocks(
                start,
                first_tip,
                execution.blocks@,
                0,
            ),
            process_blocks(
                Progress { state: state@, closed: closed@ },
                tip,
                execution.blocks@,
                i as int,
            ) == process_blocks(start, first_tip, execution.blocks@, 0),
        decreases count - i,
    {
        let is_final = count - i > CYCLE_WINDOW;
        match process_one_block(state, &mut closed, tip, &execution.blocks[i], is_final) {
            Err(e) => {
                return Err(e);
            },
            Ok(id) => {
                tip = id;
            },
        }
        i += 1;
    }
    Ok(closed)
}

/// The state transition function.
///
/// Takes in the actions of `execution`, checks each of its blocks against
/// the chain so far and the producer set, and applies the contents of all but
/// the newest 19 blocks: due actions open or cancel orders, orders past their
/// time are closed, token transfers are credited, votes are counted, and the
/// producer set is replaced where a maintenance period starts. Returns the
/// orders closed, in the order of their closing. On an error `state` is as it
/// was.
pub fn stf(state: &mut State, execution: Execution) -> (r: Result<
    Vec<([u8; 32], OrderState)>,
    StfError,
>)
    ensures
        match transition(old(state)@, execution.actions@, execution.blocks@) {
            Ok(after) => r is Ok && r->Ok_0@ == after.closed && final(state)@ == after.state,
            Err(e) => r is Err && r->Err_0 == e && final(state)@ == old(state)@,
        },
{
    let mut work = state.snapshot();
    match apply_execution(&mut work, &execution) {
        Ok(closed) => {
            *state = work;
            Ok(closed)
        },
        Err(e) => Err(e),
    }
}

} // verus!
