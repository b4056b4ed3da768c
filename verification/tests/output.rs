use untron_program::crypto::hash;
use untron_program::output::{closed_inflows, commit, PublicValues};
use untron_program::{Action, OrderState, State};

#[test]
fn action_encoding() {
    let action = Action {
        prev: [0xaa; 32],
        timestamp: 0x0102030405060708,
        address: [0xbb; 20],
        min_deposit: 10,
        size: 0x1_0000,
    };
    let mut expected = vec![0xaa; 32];
    expected.extend_from_slice(&[0; 24]);
    expected.extend_from_slice(&[1, 2, 3, 4, 5, 6, 7, 8]);
    expected.extend_from_slice(&[0xbb; 20]);
    expected.extend_from_slice(&[0; 12]);
    expected.extend_from_slice(&[0; 31]);
    expected.push(10);
    expected.extend_from_slice(&[0; 29]);
    expected.extend_from_slice(&[1, 0, 0]);
    assert_eq!(action.abi_encode(), expected);
    assert_eq!(action.abi_encode().len(), 160);
    assert_eq!(action.id(), hash(&expected));
}

#[test]
fn action_chain_links_by_identifier() {
    let first = Action { prev: [0; 32], timestamp: 1, address: [1; 20], min_deposit: 1, size: 1 };
    let second = Action { prev: first.id(), timestamp: 1, address: [1; 20], min_deposit: 1, size: 1 };
    assert_ne!(first.id(), second.id());
    assert_eq!(&second.abi_encode()[..32], &first.id());
}

#[test]
fn packed_output_without_orders() {
    let values = PublicValues {
        old_block_id: [1; 32],
        new_block_id: [2; 32],
        old_action_chain: [3; 32],
        new_action_chain: [4; 32],
        old_state_hash: [5; 32],
        new_state_hash: [6; 32],
        closed_orders: vec![],
    };
    let mut expected = Vec::new();
    for byte in 1u8..7 {
        expected.extend_from_slice(&[byte; 32]);
    }
    expected.extend_from_slice(&[0; 32]);
    assert_eq!(values.encode(), expected);
}

#[test]
fn packed_output_with_orders() {
    let values = PublicValues {
        old_block_id: [1; 32],
        new_block_id: [2; 32],
        old_action_chain: [3; 32],
        new_action_chain: [4; 32],
        old_state_hash: [5; 32],
        new_state_hash: [6; 32],
        closed_orders: vec![([7; 32], 100), ([8; 32], 0x0102)],
    };
    let mut expected = Vec::new();
    for byte in 1u8..7 {
        expected.extend_from_slice(&[byte; 32]);
    }
    expected.extend_from_slice(&[0; 31]);
    expected.push(2);
    expected.extend_from_slice(&[7; 32]);
    expected.extend_from_slice(&[0; 31]);
    expected.push(100);
    expected.extend_from_slice(&[8; 32]);
    expected.extend_from_slice(&[0; 30]);
    expected.extend_from_slice(&[1, 2]);
    assert_eq!(values.encode(), expected);
    assert_eq!(values.encode().len(), 7 * 32 + 2 * 64);
}

#[test]
fn closed_orders_are_named_by_identifier_and_inflow() {
    let order = OrderState { address: [9; 20], timestamp: 5, inflow: 70, min_deposit: 1, size: 60 };
    let other = OrderState { address: [8; 20], timestamp: 6, inflow: 0, min_deposit: 1, size: 60 };
    let closed = vec![([1; 32], order), ([2; 32], other)];
    assert_eq!(closed_inflows(&closed), vec![([1; 32], 70), ([2; 32], 0)]);
}

#[test]
fn commitment_of_a_transition() {
    let mut after = State::default();
    after.latest_block_id = [0x22; 32];
    after.action_chain = [0x44; 32];
    let order = OrderState { address: [9; 20], timestamp: 5, inflow: 70, min_deposit: 1, size: 60 };
    let bytes = commit([0x11; 32], [0x33; 32], b"before", &after, b"after", &vec![([7; 32], order)]);
    let mut expected = Vec::new();
    expected.extend_from_slice(&[0x11; 32]);
    expected.extend_from_slice(&[0x22; 32]);
    expected.extend_from_slice(&[0x33; 32]);
    expected.extend_from_slice(&[0x44; 32]);
    expected.extend_from_slice(&hash(b"before"));
    expected.extend_from_slice(&hash(b"after"));
    expected.extend_from_slice(&[0; 31]);
    expected.push(1);
    expected.extend_from_slice(&[7; 32]);
    expected.extend_from_slice(&[0; 31]);
    expected.push(70);
    assert_eq!(bytes, expected);
}
