use k256::ecdsa::SigningKey;
use untron_program::crypto::{create_merkle_tree, hash, public_key_to_address};
use untron_program::entry::{run, RunError};
use untron_program::header::HeaderError;
use untron_program::stf::{move_cycle, run_maintenance, take_producer};
use untron_program::transaction::TxError;
use untron_program::{stf, Action, Execution, OrderState, RawBlock, State, StfError};

const TOKEN: [u8; 21] = [
    0x41, 0xa6, 0x14, 0xf8, 0x03, 0xb6, 0xfd, 0x78, 0x09, 0x86, 0xa4, 0x2c, 0x78, 0xec, 0x9c, 0x7f,
    0x77, 0xe6, 0xde, 0xd1, 0x3c,
];

const START: u64 = 1_700_000_000_000;

fn varint(mut value: u64) -> Vec<u8> {
    let mut bytes = Vec::new();
    loop {
        let low = (value & 0x7f) as u8;
        value >>= 7;
        if value == 0 {
            bytes.push(low);
            return bytes;
        }
        bytes.push(low | 0x80);
    }
}

fn field(tag: u8, payload: &[u8]) -> Vec<u8> {
    let mut bytes = vec![tag];
    bytes.extend(varint(payload.len() as u64));
    bytes.extend_from_slice(payload);
    bytes
}

fn prefixed(address: [u8; 20]) -> Vec<u8> {
    let mut bytes = vec![0x41];
    bytes.extend_from_slice(&address);
    bytes
}

fn transaction(call_type: u64, message: &[u8]) -> Vec<u8> {
    let mut any = field(0x0a, b"type.googleapis.com/protocol.Contract");
    any.extend(field(0x12, message));
    let mut contract = vec![0x08];
    contract.extend(varint(call_type));
    contract.extend(field(0x12, &any));
    let mut raw = field(0x0a, &[0xab, 0xcd]);
    raw.extend(field(0x5a, &contract));
    raw.extend_from_slice(&[0x70, 0x90, 0x4e]);
    let mut tx = field(0x0a, &raw);
    tx.extend_from_slice(&[0x2a, 0x02, 0x18, 0x01]);
    tx
}

fn transfer_tx(to: [u8; 20], value: u64) -> Vec<u8> {
    let mut data = vec![0xa9, 0x05, 0x9c, 0xbb];
    data.extend_from_slice(&[0u8; 12]);
    data.extend_from_slice(&to);
    data.extend_from_slice(&[0u8; 24]);
    data.extend_from_slice(&value.to_le_bytes());
    let mut message = field(0x0a, &prefixed([0x11; 20]));
    message.extend(field(0x12, &TOKEN));
    message.extend(field(0x22, &data));
    transaction(31, &message)
}

fn vote_tx(votes: &[([u8; 20], u64)]) -> Vec<u8> {
    let mut message = field(0x0a, &prefixed([0x12; 20]));
    for (witness, count) in votes {
        let mut vote = field(0x0a, &prefixed(*witness));
        vote.push(0x10);
        vote.extend(varint(*count));
        message.extend(field(0x12, &vote));
    }
    transaction(4, &message)
}

fn corrupt_tx() -> Vec<u8> {
    vec![0x0a, 0x02, 0x0b, 0x00, 0x01]
}

fn signing_key(index: usize) -> SigningKey {
    let mut bytes = [0u8; 32];
    bytes[30] = 0x5a;
    bytes[31] = index as u8 + 1;
    SigningKey::from_slice(&bytes).unwrap()
}

fn address(index: usize) -> [u8; 20] {
    let point = signing_key(index).verifying_key().to_encoded_point(false);
    public_key_to_address(&point.as_bytes()[1..])
}

fn producer_set(first: usize) -> [[u8; 20]; 27] {
    let mut set = [[0u8; 20]; 27];
    for (i, slot) in set.iter_mut().enumerate() {
        *slot = address(first + i);
    }
    set
}

fn sign(index: usize, digest: [u8; 32]) -> Vec<u8> {
    let (signature, id) = signing_key(index).sign_prehash_recoverable(&digest).unwrap();
    let mut bytes = signature.to_bytes().to_vec();
    bytes.push(id.to_byte());
    bytes
}

/// Builds blocks one after the other.
struct Chain {
    tip: [u8; 32],
    number: u64,
    timestamp: u64,
    blocks: Vec<RawBlock>,
    ids: Vec<[u8; 32]>,
}

fn chain(tip: [u8; 32], first_number: u64) -> Chain {
    Chain { tip, number: first_number, timestamp: START, blocks: Vec::new(), ids: Vec::new() }
}

fn header(prev: [u8; 32], timestamp: u64, root: [u8; 32], number: u64) -> Vec<u8> {
    let mut raw = vec![0x08];
    raw.extend(varint(timestamp));
    raw.extend(field(0x12, &root));
    raw.extend(field(0x1a, &prev));
    raw.push(0x38);
    raw.extend(varint(number));
    raw.extend(field(0x4a, &prefixed([0x99; 20])));
    raw
}

fn push_block(chain: &mut Chain, signer: usize, txs: Vec<Vec<u8>>) {
    let digests: Vec<[u8; 32]> = txs.iter().map(|tx| hash(tx)).collect();
    let root = create_merkle_tree(&digests);
    let raw_data = header(chain.tip, chain.timestamp, root, chain.number);
    let digest = hash(&raw_data);
    let mut id = digest;
    id[..8].copy_from_slice(&chain.number.to_be_bytes());
    chain.blocks.push(RawBlock { raw_data, signature: sign(signer, digest), txs });
    chain.ids.push(id);
    chain.tip = id;
    chain.number += 1;
    chain.timestamp += 3000;
}

fn push_empty_blocks(chain: &mut Chain, count: usize) {
    for _ in 0..count {
        let signer = chain.blocks.len() % 27;
        push_block(chain, signer, Vec::new());
    }
}

fn start_state() -> State {
    let mut state = State::default();
    state.srs = producer_set(0);
    state
}

fn action(prev: [u8; 32], timestamp: u64, receiver: [u8; 20], min_deposit: u64, size: u64) -> Action {
    Action { prev, timestamp, address: receiver, min_deposit, size }
}

fn sentinel(prev: [u8; 32]) -> Action {
    action(prev, u64::MAX, [0xfe; 20], 1, 1)
}

fn opened(receiver: [u8; 20], min_deposit: u64, size: u64, inflow: u64) -> OrderState {
    OrderState { address: receiver, timestamp: START, inflow, min_deposit, size }
}

#[test]
fn default_state_is_empty() {
    let state = State::default();
    assert_eq!(state.latest_block_id, [0u8; 32]);
    assert_eq!(state.latest_timestamp, 0);
    assert!(state.cycle.is_empty());
    assert_eq!(state.srs, [[0u8; 20]; 27]);
    assert!(state.votes.is_empty());
    assert!(state.pending_actions.is_empty());
    assert!(state.orders.is_empty());
    assert_eq!(state.action_chain, [0u8; 32]);
}

#[test]
fn transition_without_orders() {
    let mut state = start_state();
    let mut blocks = chain([0u8; 32], 1);
    push_empty_blocks(&mut blocks, 120);
    let waiting = sentinel([0u8; 32]);
    let execution = Execution { actions: vec![waiting], blocks: blocks.blocks.clone() };
    let closed = stf(&mut state, execution).unwrap();
    assert!(closed.is_empty());
    assert_eq!(state.latest_block_id, blocks.ids[100]);
    assert_eq!(state.latest_timestamp, START + 100 * 3000);
    let last_producers: Vec<[u8; 20]> = (101..120).map(|i| address(i % 27)).collect();
    assert_eq!(state.cycle, last_producers);
    assert_eq!(state.srs, producer_set(0));
    assert!(state.votes.is_empty());
    assert!(state.orders.is_empty());
    assert_eq!(state.pending_actions, vec![(waiting, waiting.id())]);
    assert_eq!(state.action_chain, waiting.id());
}

#[test]
fn one_block_less_is_not_enough() {
    let mut state = start_state();
    let before = state.clone();
    let mut blocks = chain([0u8; 32], 1);
    push_empty_blocks(&mut blocks, 119);
    let execution = Execution { actions: vec![sentinel([0u8; 32])], blocks: blocks.blocks };
    assert_eq!(stf(&mut state, execution), Err(StfError::NotEnoughBlocks));
    assert_eq!(state, before);
}

#[test]
fn order_is_closed_when_funded() {
    let mut state = start_state();
    let receiver = [0x77; 20];
    let open = action([0u8; 32], START, receiver, 10, 100);
    let waiting = sentinel(open.id());
    let mut blocks = chain([0u8; 32], 1);
    push_block(&mut blocks, 0, vec![transfer_tx(receiver, 100)]);
    push_empty_blocks(&mut blocks, 119);
    let execution = Execution { actions: vec![open, waiting], blocks: blocks.blocks };
    let closed = stf(&mut state, execution).unwrap();
    assert_eq!(closed, vec![(open.id(), opened(receiver, 10, 100, 100))]);
    assert!(state.orders.is_empty());
    assert_eq!(state.pending_actions, vec![(waiting, waiting.id())]);
}

#[test]
fn order_collects_several_transfers() {
    let mut state = start_state();
    let receiver = [0x77; 20];
    let opens_at = START + 95 * 3000;
    let open = action([0u8; 32], opens_at, receiver, 10, 100);
    let mut blocks = chain([0u8; 32], 1);
    push_empty_blocks(&mut blocks, 94);
    push_block(&mut blocks, 94 % 27, vec![transfer_tx(receiver, 50)]);
    push_block(&mut blocks, 95 % 27, vec![transfer_tx(receiver, 40), transfer_tx([0x78; 20], 500)]);
    push_block(&mut blocks, 96 % 27, vec![transfer_tx(receiver, 9)]);
    push_block(&mut blocks, 97 % 27, vec![transfer_tx(receiver, 59)]);
    push_empty_blocks(&mut blocks, 22);
    let execution =
        Execution { actions: vec![open, sentinel(open.id())], blocks: blocks.blocks.clone() };
    let closed = stf(&mut state, execution).unwrap();
    assert!(closed.is_empty());
    let so_far = OrderState {
        address: receiver,
        timestamp: opens_at,
        inflow: 99,
        min_deposit: 10,
        size: 100,
    };
    assert_eq!(state.orders, vec![(open.id(), so_far)]);

    // A later transition goes on from the block that the state stands at.
    let mut more = chain(state.latest_block_id, 200);
    more.timestamp = state.latest_timestamp + 3000;
    state.cycle.clear();
    push_block(&mut more, 0, vec![transfer_tx(receiver, 10)]);
    for i in 1..120 {
        push_block(&mut more, i % 27, Vec::new());
    }
    let closed = stf(&mut state, Execution { actions: vec![], blocks: more.blocks }).unwrap();
    let paid = OrderState { inflow: 109, ..so_far };
    assert_eq!(closed, vec![(open.id(), paid)]);
    assert!(state.orders.is_empty());
}

#[test]
fn transfer_below_the_minimal_deposit_is_not_counted() {
    let mut state = start_state();
    let receiver = [0x77; 20];
    let open = action([0u8; 32], START, receiver, 10, 100);
    let mut blocks = chain([0u8; 32], 1);
    push_block(&mut blocks, 0, vec![transfer_tx(receiver, 5)]);
    push_empty_blocks(&mut blocks, 119);
    let execution = Execution { actions: vec![open, sentinel(open.id())], blocks: blocks.blocks };
    let closed = stf(&mut state, execution).unwrap();
    // The order is exactly at the end of its time and still open.
    assert!(closed.is_empty());
    assert_eq!(state.latest_timestamp, START + 300_000);
    assert_eq!(state.orders, vec![(open.id(), opened(receiver, 10, 100, 0))]);
}

#[test]
fn order_is_closed_when_its_time_is_over() {
    let mut state = start_state();
    let receiver = [0x77; 20];
    let open = action([0u8; 32], START, receiver, 10, 100);
    let mut blocks = chain([0u8; 32], 1);
    push_block(&mut blocks, 0, vec![transfer_tx(receiver, 5)]);
    push_empty_blocks(&mut blocks, 120);
    let execution = Execution { actions: vec![open, sentinel(open.id())], blocks: blocks.blocks };
    let closed = stf(&mut state, execution).unwrap();
    assert_eq!(state.latest_timestamp, START + 303_000);
    assert_eq!(closed, vec![(open.id(), opened(receiver, 10, 100, 0))]);
    assert!(state.orders.is_empty());
}

#[test]
fn second_action_for_a_receiver_cancels_the_order() {
    let mut state = start_state();
    let receiver = [0x77; 20];
    let first = action([0u8; 32], START - 10, receiver, 10, 100);
    let second = action(first.id(), START - 5, receiver, 20, 200);
    let waiting = sentinel(second.id());
    let mut blocks = chain([0u8; 32], 1);
    push_block(&mut blocks, 0, vec![transfer_tx(receiver, 50)]);
    push_empty_blocks(&mut blocks, 119);
    let execution = Execution { actions: vec![first, second, waiting], blocks: blocks.blocks };
    let closed = stf(&mut state, execution).unwrap();
    let cancelled = OrderState {
        address: receiver,
        timestamp: START - 10,
        inflow: 0,
        min_deposit: 10,
        size: 100,
    };
    assert_eq!(closed, vec![(first.id(), cancelled)]);
    assert!(state.orders.is_empty());
    assert_eq!(state.pending_actions, vec![(waiting, waiting.id())]);
}

#[test]
fn action_waits_for_its_time() {
    let mut state = start_state();
    let receiver = [0x77; 20];
    let open = action([0u8; 32], START + 3000, receiver, 1, 100);
    let mut blocks = chain([0u8; 32], 1);
    push_block(&mut blocks, 0, vec![transfer_tx(receiver, 30)]);
    push_block(&mut blocks, 1, vec![transfer_tx(receiver, 31)]);
    push_empty_blocks(&mut blocks, 118);
    let execution = Execution { actions: vec![open, sentinel(open.id())], blocks: blocks.blocks };
    let closed = stf(&mut state, execution).unwrap();
    assert!(closed.is_empty());
    let expected = OrderState {
        address: receiver,
        timestamp: START + 3000,
        inflow: 31,
        min_deposit: 1,
        size: 100,
    };
    assert_eq!(state.orders, vec![(open.id(), expected)]);
}

#[test]
fn transactions_in_another_order_are_refused() {
    let mut state = start_state();
    let before = state.clone();
    let mut blocks = chain([0u8; 32], 1);
    push_block(&mut blocks, 0, vec![transfer_tx([1; 20], 1), transfer_tx([2; 20], 2)]);
    push_empty_blocks(&mut blocks, 119);
    blocks.blocks[0].txs.swap(0, 1);
    let execution = Execution { actions: vec![sentinel([0u8; 32])], blocks: blocks.blocks };
    assert_eq!(stf(&mut state, execution), Err(StfError::MerkleMismatch));
    assert_eq!(state, before);
}

#[test]
fn unapplied_blocks_may_hold_anything() {
    let mut state = start_state();
    let mut blocks = chain([0u8; 32], 1);
    push_empty_blocks(&mut blocks, 120);
    blocks.blocks[101].txs.push(corrupt_tx());
    blocks.blocks[119].txs.push(transfer_tx([1; 20], 1));
    let execution = Execution { actions: vec![sentinel([0u8; 32])], blocks: blocks.blocks.clone() };
    assert_eq!(stf(&mut state, execution), Ok(vec![]));
    assert_eq!(state.latest_block_id, blocks.ids[100]);
}

#[test]
fn corrupt_transaction_is_refused() {
    let mut state = start_state();
    let mut blocks = chain([0u8; 32], 1);
    push_block(&mut blocks, 0, vec![corrupt_tx()]);
    push_empty_blocks(&mut blocks, 119);
    let execution = Execution { actions: vec![sentinel([0u8; 32])], blocks: blocks.blocks };
    assert_eq!(
        stf(&mut state, execution),
        Err(StfError::Transaction(TxError::UnknownWireType))
    );
}

#[test]
fn action_with_a_wrong_predecessor_is_refused() {
    let mut state = start_state();
    let mut blocks = chain([0u8; 32], 1);
    push_empty_blocks(&mut blocks, 120);
    let execution = Execution { actions: vec![sentinel([1u8; 32])], blocks: blocks.blocks };
    assert_eq!(stf(&mut state, execution), Err(StfError::ActionChainMismatch));
    assert!(state.pending_actions.is_empty());
    assert_eq!(state.action_chain, [0u8; 32]);
}

#[test]
fn wrong_action_is_reported_before_missing_blocks() {
    let mut state = start_state();
    let execution = Execution { actions: vec![sentinel([1u8; 32])], blocks: vec![] };
    assert_eq!(stf(&mut state, execution), Err(StfError::ActionChainMismatch));
}

#[test]
fn missing_pending_action_is_refused() {
    let mut state = start_state();
    let mut blocks = chain([0u8; 32], 1);
    push_empty_blocks(&mut blocks, 120);
    let execution = Execution { actions: vec![], blocks: blocks.blocks.clone() };
    assert_eq!(stf(&mut state, execution), Err(StfError::NoPendingAction));

    // The last pending action may not be promoted either.
    let only = action([0u8; 32], START + 50 * 3000, [0x77; 20], 1, 10);
    let execution = Execution { actions: vec![only], blocks: blocks.blocks };
    assert_eq!(stf(&mut state, execution), Err(StfError::NoPendingAction));
    assert!(state.orders.is_empty());
}

#[test]
fn block_that_does_not_follow_is_refused() {
    let mut state = start_state();
    let mut blocks = chain([0u8; 32], 1);
    push_empty_blocks(&mut blocks, 120);
    blocks.blocks.swap(50, 51);
    let execution = Execution { actions: vec![sentinel([0u8; 32])], blocks: blocks.blocks };
    assert_eq!(
        stf(&mut state, execution),
        Err(StfError::Header(HeaderError::PrevBlockMismatch))
    );
}

#[test]
fn block_with_a_broken_header_is_refused() {
    let mut state = start_state();
    let mut blocks = chain([0u8; 32], 1);
    push_empty_blocks(&mut blocks, 120);
    blocks.blocks[5].raw_data[0] = 0;
    let execution = Execution { actions: vec![sentinel([0u8; 32])], blocks: blocks.blocks };
    assert_eq!(stf(&mut state, execution), Err(StfError::Header(HeaderError::UnexpectedField)));
}

#[test]
fn block_of_an_unknown_producer_is_refused() {
    let mut state = start_state();
    let before = state.clone();
    let mut blocks = chain([0u8; 32], 1);
    push_empty_blocks(&mut blocks, 60);
    push_block(&mut blocks, 40, Vec::new());
    push_empty_blocks(&mut blocks, 59);
    let execution = Execution { actions: vec![sentinel([0u8; 32])], blocks: blocks.blocks };
    assert_eq!(stf(&mut state, execution), Err(StfError::UnknownProducer));
    assert_eq!(state, before);
}

#[test]
fn block_with_a_broken_signature_is_refused() {
    let mut state = start_state();
    let mut blocks = chain([0u8; 32], 1);
    push_empty_blocks(&mut blocks, 120);
    blocks.blocks[119].signature = vec![0u8; 65];
    let execution = Execution { actions: vec![sentinel([0u8; 32])], blocks: blocks.blocks.clone() };
    assert_eq!(stf(&mut state, execution), Err(StfError::SignatureRecovery));
    blocks.blocks[119].signature = vec![1u8; 10];
    let execution = Execution { actions: vec![sentinel([0u8; 32])], blocks: blocks.blocks };
    assert_eq!(stf(&mut state, execution), Err(StfError::SignatureRecovery));
}

#[test]
fn producer_of_a_recent_block_is_refused() {
    // Block 100 finds the producers of blocks 81 to 99 in the window, and the
    // one of block 81 leaves it.
    for recent in [82usize, 90, 99] {
        let mut state = start_state();
        let mut blocks = chain([0u8; 32], 1);
        push_empty_blocks(&mut blocks, 100);
        push_block(&mut blocks, recent % 27, Vec::new());
        for i in 0..19 {
            push_block(&mut blocks, (19 + i) % 27, Vec::new());
        }
        let execution = Execution { actions: vec![sentinel([0u8; 32])], blocks: blocks.blocks };
        assert_eq!(stf(&mut state, execution), Err(StfError::RepeatedProducer));
    }

    let mut state = start_state();
    let mut blocks = chain([0u8; 32], 1);
    push_empty_blocks(&mut blocks, 100);
    push_block(&mut blocks, 81 % 27, Vec::new());
    for signer in (19..27).chain(1..12) {
        push_block(&mut blocks, signer, Vec::new());
    }
    assert_eq!(blocks.blocks.len(), 120);
    let execution = Execution { actions: vec![sentinel([0u8; 32])], blocks: blocks.blocks };
    assert_eq!(stf(&mut state, execution), Ok(vec![]));
}

#[test]
fn window_of_producers() {
    let mut cycle: Vec<[u8; 20]> = Vec::new();
    for i in 0u8..19 {
        assert!(move_cycle(&mut cycle, [i; 20]));
    }
    let full: Vec<[u8; 20]> = (0u8..19).map(|i| [i; 20]).collect();
    assert_eq!(cycle, full);

    // A repeated producer is refused and the window stays.
    assert!(!move_cycle(&mut cycle, [7; 20]));
    assert_eq!(cycle, full);

    // A twentieth producer pushes the oldest out.
    assert!(move_cycle(&mut cycle, [19; 20]));
    let moved: Vec<[u8; 20]> = (1u8..20).map(|i| [i; 20]).collect();
    assert_eq!(cycle, moved);

    // The producer just pushed out could come again, the oldest left cannot
    // be told apart from a new one once it has gone.
    assert!(move_cycle(&mut cycle, [0; 20]));
    assert_eq!(cycle.len(), 19);
    assert_eq!(cycle[18], [0; 20]);
    assert_eq!(cycle[0], [2; 20]);
}

#[test]
fn inflow_that_does_not_fit_is_refused() {
    let mut state = start_state();
    let receiver = [0x77; 20];
    let open = action([0u8; 32], START, receiver, 1, u64::MAX);
    let mut blocks = chain([0u8; 32], 1);
    push_block(
        &mut blocks,
        0,
        vec![transfer_tx(receiver, u64::MAX - 1), transfer_tx(receiver, 2)],
    );
    push_empty_blocks(&mut blocks, 119);
    let execution = Execution { actions: vec![open, sentinel(open.id())], blocks: blocks.blocks };
    assert_eq!(stf(&mut state, execution), Err(StfError::InflowOverflow));
}

#[test]
fn votes_are_counted() {
    let mut state = start_state();
    state.votes = vec![([2; 20], 10)];
    let mut blocks = chain([0u8; 32], 1);
    push_block(
        &mut blocks,
        0,
        vec![vote_tx(&[([1; 20], 5), ([2; 20], 7)]), vote_tx(&[([1; 20], 1)])],
    );
    push_empty_blocks(&mut blocks, 119);
    let execution = Execution { actions: vec![sentinel([0u8; 32])], blocks: blocks.blocks };
    assert_eq!(stf(&mut state, execution), Ok(vec![]));
    assert_eq!(state.votes, vec![([2; 20], 17), ([1; 20], 6)]);
}

#[test]
fn votes_that_do_not_fit_are_refused() {
    let mut state = start_state();
    state.votes = vec![([2; 20], u64::MAX)];
    let mut blocks = chain([0u8; 32], 1);
    push_block(&mut blocks, 0, vec![vote_tx(&[([2; 20], 1)])]);
    push_empty_blocks(&mut blocks, 119);
    let execution = Execution { actions: vec![sentinel([0u8; 32])], blocks: blocks.blocks };
    assert_eq!(stf(&mut state, execution), Err(StfError::VoteOverflow));
    assert_eq!(state.votes, vec![([2; 20], u64::MAX)]);
}

fn seeded_votes() -> Vec<([u8; 20], u64)> {
    // Thirty candidates: the keys 3 to 29 get the most votes, the keys 0 to 2
    // the least.
    let mut votes = Vec::new();
    for index in (0..30usize).rev() {
        let count = if index < 3 { 10 } else { 1000 + (index as u64 % 4) };
        votes.push((address(index), count));
    }
    votes
}

fn by_votes_then_address(votes: &[([u8; 20], u64)]) -> Vec<[u8; 20]> {
    let mut ranked: Vec<(u64, [u8; 20])> = votes.iter().map(|(a, c)| (*c, *a)).collect();
    ranked.sort();
    ranked[ranked.len() - 27..].iter().map(|(_, a)| *a).collect()
}

#[test]
fn maintenance_elects_the_producers() {
    let mut state = State::default();
    let mut id = [0x33; 32];
    id[4..8].copy_from_slice(&1387u32.to_be_bytes());
    state.latest_block_id = id;
    state.cycle = vec![[1; 20], [2; 20]];
    state.votes = seeded_votes();
    assert_eq!(run_maintenance(&mut state), Ok(()));
    let expected = by_votes_then_address(&seeded_votes());
    assert_eq!(state.srs.to_vec(), expected);
    for i in 0..3 {
        assert!(!state.srs.contains(&address(i)));
    }
    assert!(state.cycle.is_empty());
    assert!(state.votes.is_empty());
}

#[test]
fn maintenance_breaks_ties_by_address() {
    let mut state = State::default();
    let mut id = [0u8; 32];
    id[4..8].copy_from_slice(&(1387u32 + 7198).to_be_bytes());
    state.latest_block_id = id;
    for i in 0u8..30 {
        state.votes.push(([29 - i; 20], 5));
    }
    assert_eq!(run_maintenance(&mut state), Ok(()));
    let expected: Vec<[u8; 20]> = (3u8..30).map(|i| [i; 20]).collect();
    assert_eq!(state.srs.to_vec(), expected);
}

#[test]
fn maintenance_only_at_its_blocks() {
    for number in [0u32, 1386, 1388, 7198, 1387 + 7197] {
        let mut state = State::default();
        let mut id = [0u8; 32];
        id[4..8].copy_from_slice(&number.to_be_bytes());
        state.latest_block_id = id;
        state.votes = seeded_votes();
        state.cycle = vec![[1; 20]];
        let before = state.clone();
        assert_eq!(run_maintenance(&mut state), Ok(()));
        assert_eq!(state, before);
    }
}

#[test]
fn maintenance_needs_enough_candidates() {
    let mut state = State::default();
    let mut id = [0u8; 32];
    id[4..8].copy_from_slice(&1387u32.to_be_bytes());
    state.latest_block_id = id;
    state.votes = seeded_votes()[..26].to_vec();
    assert_eq!(run_maintenance(&mut state), Err(StfError::NotEnoughCandidates));
}

#[test]
fn transition_over_a_maintenance_block() {
    let mut state = start_state();
    state.votes = seeded_votes();
    let mut blocks = chain([0u8; 32], 1300);
    // Block 1387 is the 88th; from the next block on the new producers sign.
    for i in 0..88 {
        push_block(&mut blocks, i % 27, Vec::new());
    }
    let elected = by_votes_then_address(&seeded_votes());
    let signer_of = |a: &[u8; 20]| (0..30).find(|i| address(*i) == *a).unwrap();
    for i in 0..32 {
        push_block(&mut blocks, signer_of(&elected[i % 27]), Vec::new());
    }
    let execution = Execution { actions: vec![sentinel([0u8; 32])], blocks: blocks.blocks.clone() };
    assert_eq!(stf(&mut state, execution), Ok(vec![]));
    assert_eq!(state.srs.to_vec(), elected);
    assert!(state.votes.is_empty());
    assert_eq!(state.latest_block_id, blocks.ids[100]);
    let last_producers: Vec<[u8; 20]> = (13..32).map(|i| elected[i % 27]).collect();
    assert_eq!(state.cycle, last_producers);
}

#[test]
fn old_producers_are_refused_after_maintenance() {
    let mut state = start_state();
    state.votes = seeded_votes();
    let mut blocks = chain([0u8; 32], 1300);
    for i in 0..88 {
        push_block(&mut blocks, i % 27, Vec::new());
    }
    push_block(&mut blocks, 0, Vec::new());
    push_empty_blocks(&mut blocks, 31);
    let execution = Execution { actions: vec![sentinel([0u8; 32])], blocks: blocks.blocks };
    assert_eq!(stf(&mut state, execution), Err(StfError::UnknownProducer));
}

#[test]
fn transition_gives_the_same_result_twice() {
    let receiver = [0x77; 20];
    let open = action([0u8; 32], START, receiver, 10, 100);
    let mut blocks = chain([0u8; 32], 1);
    push_block(&mut blocks, 0, vec![transfer_tx(receiver, 100), vote_tx(&[([1; 20], 5)])]);
    push_empty_blocks(&mut blocks, 119);
    let mut first = start_state();
    let mut second = start_state();
    let execution = Execution { actions: vec![open, sentinel(open.id())], blocks: blocks.blocks };
    let closed_first = stf(&mut first, execution.clone());
    let closed_second = stf(&mut second, execution);
    assert_eq!(closed_first, closed_second);
    assert_eq!(first, second);
}

#[test]
fn closed_orders_are_not_active() {
    let mut state = start_state();
    let early = action([0u8; 32], START, [0x71; 20], 1, 50);
    let late = action(early.id(), START, [0x72; 20], 1, 50);
    let stays = action(late.id(), START, [0x73; 20], 1, 50);
    let waiting = sentinel(stays.id());
    let mut blocks = chain([0u8; 32], 1);
    push_block(&mut blocks, 0, vec![transfer_tx([0x72; 20], 60)]);
    push_block(&mut blocks, 1, vec![transfer_tx([0x71; 20], 50), transfer_tx([0x73; 20], 49)]);
    push_empty_blocks(&mut blocks, 118);
    let execution = Execution { actions: vec![early, late, stays, waiting], blocks: blocks.blocks };
    let closed = stf(&mut state, execution).unwrap();
    let ids: Vec<[u8; 32]> = closed.iter().map(|(id, _)| *id).collect();
    assert_eq!(ids, vec![late.id(), early.id()]);
    assert_eq!(closed[0].1.inflow, 60);
    assert_eq!(closed[1].1.inflow, 50);
    assert_eq!(state.orders.len(), 1);
    assert_eq!(state.orders[0].0, stays.id());
    for (id, _) in &closed {
        assert!(state.orders.iter().all(|(active, _)| active != id));
    }
    for (_, order) in &state.orders {
        assert!(order.inflow < order.size);
    }
}

#[test]
fn run_packs_the_public_output() {
    let before = start_state();
    let receiver = [0x77; 20];
    let open = action([0u8; 32], START, receiver, 10, 100);
    let waiting = sentinel(open.id());
    let mut blocks = chain([0u8; 32], 1);
    push_block(&mut blocks, 0, vec![transfer_tx(receiver, 150)]);
    push_empty_blocks(&mut blocks, 119);
    let execution = Execution { actions: vec![open, waiting], blocks: blocks.blocks.clone() };

    let state_bytes = before.serialize();
    let outcome = run(&state_bytes, execution.clone()).unwrap();

    let mut after = before.clone();
    let closed = stf(&mut after, execution).unwrap();
    assert_eq!(outcome.state, after);
    assert_eq!(closed.len(), 1);

    let mut expected = Vec::new();
    expected.extend_from_slice(&[0u8; 32]);
    expected.extend_from_slice(&blocks.ids[100]);
    expected.extend_from_slice(&[0u8; 32]);
    expected.extend_from_slice(&waiting.id());
    expected.extend_from_slice(&hash(&state_bytes));
    expected.extend_from_slice(&hash(&after.serialize()));
    expected.extend_from_slice(&[0u8; 31]);
    expected.push(1);
    expected.extend_from_slice(&open.id());
    expected.extend_from_slice(&[0u8; 31]);
    expected.push(150);
    assert_eq!(outcome.public_values, expected);
}

#[test]
fn run_reports_why_a_transition_is_refused() {
    let state_bytes = start_state().serialize();
    let mut blocks = chain([0u8; 32], 1);
    push_empty_blocks(&mut blocks, 120);
    let execution = Execution { actions: vec![], blocks: blocks.blocks };
    assert_eq!(run(&state_bytes, execution), Err(RunError::Refused(StfError::NoPendingAction)));
}

#[test]
fn producer_is_taken_only_from_the_set() {
    let mut state = State::default();
    for (i, slot) in state.srs.iter_mut().enumerate() {
        *slot = [i as u8 + 1; 20];
    }
    assert_eq!(take_producer(&mut state, [1; 20]), Ok(()));
    assert_eq!(take_producer(&mut state, [2; 20]), Ok(()));
    assert_eq!(state.cycle, vec![[1; 20], [2; 20]]);
    let before = state.clone();
    assert_eq!(take_producer(&mut state, [28; 20]), Err(StfError::UnknownProducer));
    assert_eq!(state, before);
    assert_eq!(take_producer(&mut state, [1; 20]), Err(StfError::RepeatedProducer));
    assert_eq!(state, before);
}
