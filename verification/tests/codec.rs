use untron_program::entry::{run, RunError};
use untron_program::{Action, Execution, OrderState, State, StfError};

fn sample_state() -> State {
    let mut state = State::default();
    state.latest_block_id = [0x11; 32];
    state.latest_timestamp = 0x0102030405060708;
    state.action_chain = [0x22; 32];
    for (i, producer) in state.srs.iter_mut().enumerate() {
        *producer = [i as u8; 20];
    }
    state.cycle = vec![[3; 20], [4; 20]];
    state.votes = vec![([5; 20], 77), ([6; 20], u64::MAX), ([7; 20], 0)];
    let action = Action {
        prev: [0x33; 32],
        timestamp: 9,
        address: [0x44; 20],
        min_deposit: 10,
        size: 11,
    };
    state.pending_actions = vec![(action, [0x55; 32])];
    let order = OrderState { address: [0x66; 20], timestamp: 12, inflow: 13, min_deposit: 14, size: 15 };
    state.orders = vec![([0x77; 32], order), ([0x78; 32], order)];
    state
}

#[test]
fn encoding_of_the_default_state() {
    let bytes = State::default().serialize();
    assert_eq!(bytes, vec![0u8; 644]);
}

#[test]
fn encoding_of_a_state() {
    let bytes = sample_state().serialize();
    let mut expected = vec![0x11; 32];
    expected.extend_from_slice(&[1, 2, 3, 4, 5, 6, 7, 8]);
    expected.extend_from_slice(&[0x22; 32]);
    for i in 0u8..27 {
        expected.extend_from_slice(&[i; 20]);
    }
    expected.extend_from_slice(&[0, 0, 0, 0, 0, 0, 0, 2]);
    expected.extend_from_slice(&[0, 0, 0, 0, 0, 0, 0, 3]);
    expected.extend_from_slice(&[0, 0, 0, 0, 0, 0, 0, 1]);
    expected.extend_from_slice(&[0, 0, 0, 0, 0, 0, 0, 2]);
    assert_eq!(expected.len(), 644);
    expected.extend_from_slice(&[3; 20]);
    expected.extend_from_slice(&[4; 20]);
    expected.extend_from_slice(&[5; 20]);
    expected.extend_from_slice(&[0, 0, 0, 0, 0, 0, 0, 77]);
    expected.extend_from_slice(&[6; 20]);
    expected.extend_from_slice(&[0xff; 8]);
    expected.extend_from_slice(&[7; 20]);
    expected.extend_from_slice(&[0; 8]);
    expected.extend_from_slice(&[0x33; 32]);
    expected.extend_from_slice(&[0, 0, 0, 0, 0, 0, 0, 9]);
    expected.extend_from_slice(&[0x44; 20]);
    expected.extend_from_slice(&[0, 0, 0, 0, 0, 0, 0, 10]);
    expected.extend_from_slice(&[0, 0, 0, 0, 0, 0, 0, 11]);
    expected.extend_from_slice(&[0x55; 32]);
    for id in [0x77u8, 0x78] {
        expected.extend_from_slice(&[id; 32]);
        expected.extend_from_slice(&[0x66; 20]);
        expected.extend_from_slice(&[0, 0, 0, 0, 0, 0, 0, 12]);
        expected.extend_from_slice(&[0, 0, 0, 0, 0, 0, 0, 13]);
        expected.extend_from_slice(&[0, 0, 0, 0, 0, 0, 0, 14]);
        expected.extend_from_slice(&[0, 0, 0, 0, 0, 0, 0, 15]);
    }
    assert_eq!(bytes, expected);
}

#[test]
fn decoding_gives_the_state_back() {
    for state in [State::default(), sample_state()] {
        let bytes = state.serialize();
        assert_eq!(State::deserialize(&bytes), Some(state));
    }
}

#[test]
fn encoding_is_the_same_on_every_call() {
    assert_eq!(sample_state().serialize(), sample_state().serialize());
}

#[test]
fn decoding_refuses_other_lengths() {
    let bytes = sample_state().serialize();
    assert_eq!(State::deserialize(&bytes[..bytes.len() - 1]), None);
    assert_eq!(State::deserialize(&bytes[..643]), None);
    assert_eq!(State::deserialize(&[]), None);
    let mut longer = bytes.clone();
    longer.push(0);
    assert_eq!(State::deserialize(&longer), None);
}

#[test]
fn decoding_refuses_a_wrong_count() {
    let mut bytes = sample_state().serialize();
    bytes[619] = 3;
    assert_eq!(State::deserialize(&bytes), None);
    let mut bytes = sample_state().serialize();
    bytes[636] = 0x80;
    assert_eq!(State::deserialize(&bytes), None);
}

#[test]
fn decoding_reads_every_field() {
    let bytes = sample_state().serialize();
    for at in [0usize, 39, 71, 72, 611, 644, 700, 750, 900, bytes.len() - 1] {
        let mut changed = bytes.clone();
        changed[at] ^= 1;
        let decoded = State::deserialize(&changed).unwrap();
        assert_ne!(decoded, sample_state());
        assert_eq!(decoded.serialize(), changed);
    }
}

#[test]
fn run_refuses_a_malformed_state() {
    let execution = Execution { actions: vec![], blocks: vec![] };
    assert_eq!(run(&[1, 2, 3], execution), Err(RunError::MalformedState));
}

#[test]
fn run_reports_a_refused_transition() {
    let execution = Execution { actions: vec![], blocks: vec![] };
    let bytes = State::default().serialize();
    assert_eq!(run(&bytes, execution), Err(RunError::Refused(StfError::NotEnoughBlocks)));
}
