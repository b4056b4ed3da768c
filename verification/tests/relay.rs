use untron_program::relay::{
    contains_word, fit_to_funds, is_critical, is_proof_due, payable_orders, plan_proof, ProofPlan,
};
use untron_program::OrderState;

fn order(inflow: u64, size: u64) -> OrderState {
    OrderState { address: [1; 20], timestamp: 2, inflow, min_deposit: 1, size }
}

#[test]
fn proof_is_due_after_the_interval() {
    assert!(!is_proof_due(1000, 900, 100, 5, 3));
    assert!(is_proof_due(1001, 900, 100, 5, 3));
    assert!(is_proof_due(1001, 900, 100, 5, 5));
    assert!(!is_proof_due(1001, 900, 100, 5, 6));
    assert!(!is_proof_due(u64::MAX, u64::MAX, 1, 5, 0));
}

#[test]
fn proof_plan_follows_the_keys() {
    assert_eq!(plan_proof(&[0; 32], &[7; 32]), ProofPlan::ExecuteOnly);
    assert_eq!(plan_proof(&[0; 32], &[0; 32]), ProofPlan::ExecuteOnly);
    assert_eq!(plan_proof(&[8; 32], &[7; 32]), ProofPlan::Refuse);
    assert_eq!(plan_proof(&[7; 32], &[7; 32]), ProofPlan::Prove);
}

#[test]
fn only_orders_paid_in_full_are_paid_out() {
    let closed = vec![
        ([1; 32], order(100, 100)),
        ([2; 32], order(0, 100)),
        ([3; 32], order(150, 100)),
        ([4; 32], order(7, 7)),
    ];
    assert_eq!(payable_orders(&closed), vec![[1; 32], [4; 32]]);
    assert_eq!(payable_orders(&vec![]), Vec::<[u8; 32]>::new());
}

#[test]
fn orders_are_set_aside_until_the_funds_reach() {
    let mut buffer = vec![[1; 32], [2; 32], [3; 32]];
    let mut set_aside = Vec::new();
    assert!(fit_to_funds(300, 250, &mut buffer, &mut set_aside));
    assert_eq!(buffer, vec![[1; 32], [2; 32]]);
    assert_eq!(set_aside, vec![[3; 32]]);
    assert!(!fit_to_funds(200, 250, &mut buffer, &mut set_aside));
    assert_eq!(buffer, vec![[1; 32], [2; 32]]);
    assert_eq!(set_aside, vec![[3; 32]]);
    assert!(!fit_to_funds(250, 250, &mut buffer, &mut set_aside));
}

#[test]
fn nothing_is_left_to_set_aside() {
    let mut buffer: Vec<[u8; 32]> = Vec::new();
    let mut set_aside = vec![[9; 32]];
    assert!(!fit_to_funds(1, 0, &mut buffer, &mut set_aside));
    assert!(buffer.is_empty());
    assert_eq!(set_aside, vec![[9; 32]]);
}

#[test]
fn words_are_found_anywhere() {
    assert!(contains_word(b"xxWARN", b"WARN"));
    assert!(contains_word(b"WARNxx", b"WARN"));
    assert!(contains_word(b"WARN", b"WARN"));
    assert!(contains_word(b"anything", b""));
    assert!(!contains_word(b"WAR", b"WARN"));
    assert!(!contains_word(b"WAxRN", b"WARN"));
    assert!(!contains_word(b"", b"WARN"));
}

#[test]
fn warnings_and_errors_are_critical() {
    assert!(is_critical(b"2024-10-01  WARN relayer: no state backups found"));
    assert!(is_critical(b"ERROR"));
    assert!(!is_critical(b"2024-10-01  INFO relayer: got block 64301464"));
    assert!(!is_critical(b"warn error Warn Error ERRO R"));
    assert!(!is_critical(b""));
}
