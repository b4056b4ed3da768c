use untron_program::transaction::{
    parse_usdt_transfer, parse_vote_tx, TxError, UsdtTransfer, Vote, VoteTx,
};

const TOKEN: [u8; 21] = [
    0x41, 0xa6, 0x14, 0xf8, 0x03, 0xb6, 0xfd, 0x78, 0x09, 0x86, 0xa4, 0x2c, 0x78, 0xec, 0x9c, 0x7f,
    0x77, 0xe6, 0xde, 0xd1, 0x3c,
];

fn varint(mut value: u64) -> Vec<u8> {
    let mut bytes = Vec::new();
    loop {
        let low = (value & 0x7f) as u8;
        value >>= 7;
        if value == 0 {
            bytes.push(low);
            return bytes;
        }
        bytes.push(low | 0x80);
    }
}

fn field(tag: u8, payload: &[u8]) -> Vec<u8> {
    let mut bytes = vec![tag];
    bytes.extend(varint(payload.len() as u64));
    bytes.extend_from_slice(payload);
    bytes
}

fn prefixed(address: [u8; 20]) -> Vec<u8> {
    let mut bytes = vec![0x41];
    bytes.extend_from_slice(&address);
    bytes
}

fn call_data(selector: [u8; 4], to: [u8; 20], amount: [u8; 8]) -> Vec<u8> {
    let mut data = selector.to_vec();
    data.extend_from_slice(&[0u8; 12]);
    data.extend_from_slice(&to);
    data.extend_from_slice(&[0u8; 24]);
    data.extend_from_slice(&amount);
    data
}

fn trigger(contract: &[u8], data: &[u8]) -> Vec<u8> {
    let mut message = field(0x0a, &prefixed([0x11; 20]));
    message.extend(field(0x12, contract));
    message.extend(field(0x22, data));
    message
}

fn votes_message(voter: [u8; 20], votes: &[([u8; 20], u64)]) -> Vec<u8> {
    let mut message = field(0x0a, &prefixed(voter));
    for (witness, count) in votes {
        let mut vote = field(0x0a, &prefixed(*witness));
        vote.push(0x10);
        vote.extend(varint(*count));
        message.extend(field(0x12, &vote));
    }
    message
}

fn contract(call_type: u64, kind_url: &[u8], message: &[u8]) -> Vec<u8> {
    let mut any = field(0x0a, kind_url);
    any.extend(field(0x12, message));
    let mut contract = vec![0x08];
    contract.extend(varint(call_type));
    contract.extend(field(0x12, &any));
    contract
}

fn transaction(before: &[u8], contract: &[u8], marker: u8) -> Vec<u8> {
    let mut raw = before.to_vec();
    raw.extend(field(0x5a, contract));
    raw.extend_from_slice(&[0x70, 0x90, 0x4e]);
    let mut tx = field(0x0a, &raw);
    tx.extend(field(0x12, &[7u8; 65]));
    tx.extend_from_slice(&[0x2a, 0x02, 0x18, marker]);
    tx
}

fn usual_fields() -> Vec<u8> {
    // Two reference bytes, a four-byte field, an integer and eight hash bytes.
    let mut before = field(0x0a, &[0xab, 0xcd]);
    before.extend_from_slice(&[0x15, 1, 2, 3, 4]);
    before.extend_from_slice(&[0x40, 0xe8, 0x07]);
    before.extend(field(0x22, &[0x5a; 8]));
    before
}

fn transfer_tx(to: [u8; 20], value: u64) -> Vec<u8> {
    let data = call_data([0xa9, 0x05, 0x9c, 0xbb], to, value.to_le_bytes());
    let message = trigger(&TOKEN, &data);
    transaction(&usual_fields(), &contract(31, b"type.googleapis.com/protocol.TriggerSmartContract", &message), 1)
}

fn vote_tx(voter: [u8; 20], votes: &[([u8; 20], u64)]) -> Vec<u8> {
    let message = votes_message(voter, votes);
    transaction(&usual_fields(), &contract(4, b"type.googleapis.com/protocol.VoteWitnessContract", &message), 1)
}

#[test]
fn transfer_is_recognized() {
    let tx = transfer_tx([0x22; 20], 100);
    assert_eq!(parse_usdt_transfer(&tx), Ok(Some(UsdtTransfer { to: [0x22; 20], value: 100 })));
    assert_eq!(parse_vote_tx(&tx), Ok(None));
}

#[test]
fn transfer_amount_is_read_least_significant_byte_first() {
    let data = call_data([0xa9, 0x05, 0x9c, 0xbb], [3; 20], [1, 2, 0, 0, 0, 0, 0, 0]);
    let tx = transaction(&[], &contract(31, b"t", &trigger(&TOKEN, &data)), 1);
    assert_eq!(parse_usdt_transfer(&tx), Ok(Some(UsdtTransfer { to: [3; 20], value: 513 })));
}

#[test]
fn transfer_of_a_long_transaction() {
    let mut before = usual_fields();
    before.extend(field(0x52, &[0x5a; 300]));
    let data = call_data([0xa9, 0x05, 0x9c, 0xbb], [5; 20], u64::MAX.to_le_bytes());
    let tx = transaction(&before, &contract(31, b"type", &trigger(&TOKEN, &data)), 1);
    assert_eq!(parse_usdt_transfer(&tx), Ok(Some(UsdtTransfer { to: [5; 20], value: u64::MAX })));
}

#[test]
fn transfer_with_longer_call_data() {
    let mut data = call_data([0xa9, 0x05, 0x9c, 0xbb], [6; 20], 7u64.to_le_bytes());
    data.extend_from_slice(&[0xee; 32]);
    let tx = transaction(&[], &contract(31, b"t", &trigger(&TOKEN, &data)), 1);
    assert_eq!(parse_usdt_transfer(&tx), Ok(Some(UsdtTransfer { to: [6; 20], value: 7 })));
}

#[test]
fn failed_transaction_is_not_recognized() {
    let data = call_data([0xa9, 0x05, 0x9c, 0xbb], [1; 20], 5u64.to_le_bytes());
    let tx = transaction(&usual_fields(), &contract(31, b"t", &trigger(&TOKEN, &data)), 2);
    assert_eq!(parse_usdt_transfer(&tx), Ok(None));
    assert_eq!(parse_vote_tx(&tx), Ok(None));
}

#[test]
fn empty_transaction_is_not_recognized() {
    assert_eq!(parse_usdt_transfer(&[]), Ok(None));
    assert_eq!(parse_vote_tx(&[]), Ok(None));
    assert_eq!(parse_usdt_transfer(&[1]), Ok(None));
    assert_eq!(parse_usdt_transfer(&[0x0a, 1]), Ok(None));
}

#[test]
fn transaction_with_another_first_field_is_not_recognized() {
    let mut tx = transfer_tx([1; 20], 5);
    tx[0] = 0x12;
    assert_eq!(parse_usdt_transfer(&tx), Ok(None));
    // Even with a field of unknown wire type further on.
    tx[3] = 0x0b;
    assert_eq!(parse_usdt_transfer(&tx), Ok(None));
}

#[test]
fn transfer_to_another_contract_is_not_recognized() {
    let mut other = TOKEN;
    other[20] ^= 1;
    let data = call_data([0xa9, 0x05, 0x9c, 0xbb], [1; 20], 5u64.to_le_bytes());
    let tx = transaction(&[], &contract(31, b"t", &trigger(&other, &data)), 1);
    assert_eq!(parse_usdt_transfer(&tx), Ok(None));
    let tx = transaction(&[], &contract(31, b"t", &trigger(&TOKEN[..20], &data)), 1);
    assert_eq!(parse_usdt_transfer(&tx), Ok(None));
}

#[test]
fn call_of_another_method_is_not_recognized() {
    let data = call_data([0x23, 0xb8, 0x72, 0xdd], [1; 20], 5u64.to_le_bytes());
    let tx = transaction(&[], &contract(31, b"t", &trigger(&TOKEN, &data)), 1);
    assert_eq!(parse_usdt_transfer(&tx), Ok(None));
}

#[test]
fn call_data_that_is_too_short_is_not_recognized() {
    let data = call_data([0xa9, 0x05, 0x9c, 0xbb], [1; 20], 5u64.to_le_bytes());
    let tx = transaction(&[], &contract(31, b"t", &trigger(&TOKEN, &data[..67])), 1);
    assert_eq!(parse_usdt_transfer(&tx), Ok(None));
}

#[test]
fn contract_of_another_type_is_not_recognized() {
    let data = call_data([0xa9, 0x05, 0x9c, 0xbb], [1; 20], 5u64.to_le_bytes());
    let tx = transaction(&[], &contract(30, b"t", &trigger(&TOKEN, &data)), 1);
    assert_eq!(parse_usdt_transfer(&tx), Ok(None));
    assert_eq!(parse_vote_tx(&tx), Ok(None));
}

#[test]
fn transaction_without_a_contract_is_not_recognized() {
    let mut tx = field(0x0a, &usual_fields());
    tx.extend_from_slice(&[0x2a, 0x02, 0x18, 0x01]);
    assert_eq!(parse_usdt_transfer(&tx), Ok(None));
    assert_eq!(parse_vote_tx(&tx), Ok(None));
}

#[test]
fn field_of_unknown_wire_type_is_corrupt() {
    for wire in [1u8, 3, 4, 6, 7] {
        let mut before = field(0x0a, &[0xab, 0xcd]);
        before.extend_from_slice(&[0x18 | wire, 0x01]);
        let data = call_data([0xa9, 0x05, 0x9c, 0xbb], [1; 20], 5u64.to_le_bytes());
        let tx = transaction(&before, &contract(31, b"t", &trigger(&TOKEN, &data)), 1);
        assert_eq!(parse_usdt_transfer(&tx), Err(TxError::UnknownWireType));
        assert_eq!(parse_vote_tx(&tx), Err(TxError::UnknownWireType));
    }
}

#[test]
fn integer_that_does_not_fit_is_corrupt() {
    let mut before = vec![0x40];
    before.extend_from_slice(&[0xff, 0xff, 0xff, 0xff, 0xff, 0xff, 0xff, 0xff, 0xff, 0x02]);
    let data = call_data([0xa9, 0x05, 0x9c, 0xbb], [1; 20], 5u64.to_le_bytes());
    let tx = transaction(&before, &contract(31, b"t", &trigger(&TOKEN, &data)), 1);
    assert_eq!(parse_usdt_transfer(&tx), Err(TxError::VarintOverflow));
    assert_eq!(parse_vote_tx(&tx), Err(TxError::VarintOverflow));
}

#[test]
fn vote_is_recognized() {
    let tx = vote_tx([0x33; 20], &[([0x44; 20], 5), ([0x55; 20], 300)]);
    let expected = VoteTx {
        voter: [0x33; 20],
        votes: vec![
            Vote { witness_address: [0x44; 20], votes_count: 5 },
            Vote { witness_address: [0x55; 20], votes_count: 300 },
        ],
    };
    assert_eq!(parse_vote_tx(&tx), Ok(Some(expected)));
    assert_eq!(parse_usdt_transfer(&tx), Ok(None));
}

#[test]
fn vote_without_votes_is_recognized() {
    let tx = vote_tx([0x33; 20], &[]);
    assert_eq!(parse_vote_tx(&tx), Ok(Some(VoteTx { voter: [0x33; 20], votes: vec![] })));
}

#[test]
fn vote_with_a_short_voter_is_not_recognized() {
    let message = field(0x0a, &[0x41; 20]);
    let tx = transaction(&[], &contract(4, b"t", &message), 1);
    assert_eq!(parse_vote_tx(&tx), Ok(None));
}

#[test]
fn vote_with_a_broken_vote_is_not_recognized() {
    let mut message = field(0x0a, &prefixed([1; 20]));
    let mut vote = field(0x0a, &prefixed([2; 20]));
    vote.push(0x18);
    vote.push(0x05);
    message.extend(field(0x12, &vote));
    let tx = transaction(&[], &contract(4, b"t", &message), 1);
    assert_eq!(parse_vote_tx(&tx), Ok(None));
}

#[test]
fn vote_count_that_does_not_fit_is_corrupt() {
    let mut message = field(0x0a, &prefixed([1; 20]));
    let mut vote = field(0x0a, &prefixed([2; 20]));
    vote.push(0x10);
    vote.extend_from_slice(&[0xff, 0xff, 0xff, 0xff, 0xff, 0xff, 0xff, 0xff, 0xff, 0x7f]);
    message.extend(field(0x12, &vote));
    let tx = transaction(&[], &contract(4, b"t", &message), 1);
    assert_eq!(parse_vote_tx(&tx), Err(TxError::VarintOverflow));
}
