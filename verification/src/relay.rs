//! Decisions of the relayer and the fulfiller that run the transition: when
//! a proof is due, how it is to be made, which closed orders are paid out,
//! and which log lines are marked as critical.

use crate::bytes::{array_equal, bytes_equal, zero_array, zeroed};
use crate::model::OrderState;
use vstd::prelude::*;
use vstd::slice::slice_subrange;

verus! {

/// Whether it is time to prove the transitions made so far: more than the
/// interval has passed since the last proof, and no more orders were closed
/// than a proof may relay.
pub open spec fn proof_due(
    now: u64,
    latest_proof: u64,
    proof_interval: u64,
    min_orders_to_relay: usize,
    total_closed_orders: usize,
) -> bool {
    now > latest_proof + proof_interval && min_orders_to_relay >= total_closed_orders
}

/// Decides whether a proof is due.
pub fn is_proof_due(
    now: u64,
    latest_proof: u64,
    proof_interval: u64,
    min_orders_to_relay: usize,
    total_closed_orders: usize,
) -> (due: bool)
    ensures
        due == proof_due(now, latest_proof, proof_interval, min_orders_to_relay, total_closed_orders),
{
    match latest_proof.checked_add(proof_interval) {
        Some(next) => now > next && min_orders_to_relay >= total_closed_orders,
        None => false,
    }
}

/// How a proof is to be made.
#[derive(Clone, Copy, Debug, PartialEq, Eq, Structural)]
pub enum ProofPlan {
    /// The contract names no verification key: the program is only run, and
    /// its public output is handed in without a proof.
    ExecuteOnly,
    /// The contract names another key than that of the program: nothing is
    /// handed in.
    Refuse,
    /// The keys agree: the proof is made and verified.
    Prove,
}

/// The plan for the key that the contract names and the program's own key.
pub open spec fn proof_plan(contract_key: [u8; 32], own_key: [u8; 32]) -> ProofPlan {
    if contract_key == zero_array::<32>() {
        ProofPlan::ExecuteOnly
    } else if contract_key != own_key {
        ProofPlan::Refuse
    } else {
        ProofPlan::Prove
    }
}

/// Decides how a proof is to be made.
pub fn plan_proof(contract_key: &[u8; 32], own_key: &[u8; 32]) -> (plan: ProofPlan)
    ensures
        plan == proof_plan(*contract_key, *own_key),
{
    let zero = zeroed::<32>();
    if array_equal(contract_key, &zero) {
        ProofPlan::ExecuteOnly
    } else if !array_equal(contract_key, own_key) {
        ProofPlan::Refuse
    } else {
        ProofPlan::Prove
    }
}

/// Whether an order was closed with exactly its size paid in.
pub open spec fn paid_in_full() -> spec_fn(([u8; 32], OrderState)) -> bool {
    |entry: ([u8; 32], OrderState)| entry.1.inflow == entry.1.size
}

/// The identifiers of the closed orders that were paid in full, in their
/// order.
pub open spec fn payable(closed: Seq<([u8; 32], OrderState)>) -> Seq<[u8; 32]> {
    closed.filter(paid_in_full()).map_values(|entry: ([u8; 32], OrderState)| entry.0)
}

/// Picks the closed orders that are to be paid out.
pub fn payable_orders(closed: &Vec<([u8; 32], OrderState)>) -> (ids: Vec<[u8; 32]>)
    ensures
        ids@ == payable(closed@),
{
    let mut ids: Vec<[u8; 32]> = Vec::new();
    let mut i: usize = 0;
    assert(closed@.take(0) =~= Seq::empty());
    assert(ids@ =~= payable(closed@.take(0)));
    while i < closed.len()
        invariant
            i <= closed.len(),
            ids@ == payable(closed@.take(i as int)),
        decreases closed.len() - i,
    {
        let entry = closed[i];
        proof {
            assert(closed@.take(i + 1) =~= closed@.take(i as int).push(entry));
            closed@.take(i as int).lemma_filter_push(entry, paid_in_full());
            assert(paid_in_full()(entry) == (entry.1.inflow == entry.1.size));
        }
        if entry.1.inflow == entry.1.size {
            ids.push(entry.0);
            assert(ids@ =~= payable(closed@.take(i + 1)));
        }
        i += 1;
    }
    assert(closed@.take(closed@.len() as int) =~= closed@);
    ids
}

/// One step of fitting the orders to pay out to the funds at hand. `total`
/// is what paying all of `buffer` costs. Where the funds do not reach, the
/// newest order is set aside for later and the step is to be repeated with
/// the new total. Returns whether to repeat.
pub fn fit_to_funds(
    total: u64,
    balance: u64,
    buffer: &mut Vec<[u8; 32]>,
    set_aside: &mut Vec<[u8; 32]>,
) -> (again: bool)
    ensures
        again == (total > balance && old(buffer)@.len() > 0),
        again ==> final(buffer)@ == old(buffer)@.drop_last() && final(set_aside)@ == old(
            set_aside,
        )@.push(old(buffer)@.last()),
        !again ==> final(buffer)@ == old(buffer)@ && final(set_aside)@ == old(set_aside)@,
{
    if total <= balance {
        return false;
    }
    match buffer.pop() {
        Some(id) => {
            set_aside.push(id);
            true
        },
        None => false,
    }
}

/// Whether `word` stands in `text` at position `at`.
pub open spec fn occurs_at(text: Seq<u8>, word: Seq<u8>, at: int) -> bool {
    0 <= at && at + word.len() <= text.len() && text.subrange(at, at + word.len()) == word
}

/// Whether `word` stands somewhere in `text`.
pub open spec fn mentions(text: Seq<u8>, word: Seq<u8>) -> bool {
    exists|at: int| occurs_at(text, word, at)
}

/// The bytes of `WARN`.
pub open spec fn warn_word() -> Seq<u8> {
    seq![0x57u8, 0x41, 0x52, 0x4e]
}

/// The bytes of `ERROR`.
pub open spec fn error_word() -> Seq<u8> {
    seq![0x45u8, 0x52, 0x52, 0x4f, 0x52]
}

/// Whether a log line tells of a warning or an error.
pub open spec fn critical(line: Seq<u8>) -> bool {
    mentions(line, warn_word()) || mentions(line, error_word())
}

/// Whether `word` stands somewhere in `text`.
pub fn contains_word(text: &[u8], word: &[u8]) -> (found: bool)
    ensures
        found == mentions(text@, word@),
{
    if word.len() > text.len() {
        return false;
    }
    if word.len() == 0 {
        assert(occurs_at(text@, word@, 0)) by {
            assert(text@.subrange(0, 0) =~= word@);
        }
        return true;
    }
    let last: usize = text.len() - word.len();
    let mut at: usize = 0;
    while at <= last
        invariant
            at <= last + 1,
            last == text.len() - word.len(),
            last < text.len(),
            forall|k: int| 0 <= k < at ==> !occurs_at(text@, word@, k),
        decreases last + 1 - at,
    {
        if bytes_equal(slice_subrange(text, at, at + word.len()), word) {
            assert(occurs_at(text@, word@, at as int));
            return true;
        }
        at += 1;
    }
    false
}

/// Whether a log line is to be marked as critical when it is forwarded.
pub fn is_critical(line: &[u8]) -> (marked: bool)
    ensures
        marked == critical(line@),
{
    let warn: [u8; 4] = [0x57, 0x41, 0x52, 0x4e];
    let error: [u8; 5] = [0x45, 0x52, 0x52, 0x4f, 0x52];
    assert(warn@ =~= warn_word());
    assert(error@ =~= error_word());
    contains_word(line, warn.as_slice()) || contains_word(line, error.as_slice())
}

} // verus!
