//! Where the identifiers of orders come from, and which block a state stands
//! at after a transition.

use crate::crypto::digest_of;
use crate::header::{header_of, BlockHeader};
use crate::invariants::{lemma_order_for, lemma_order_under};
use crate::model::{action_id, Action, RawBlock, StateView};
use crate::rules::{
    apply_tx, apply_txs, consensus, content, credit, ingest, is_live_at, opened_by, order_for,
    process_block, process_blocks, promote, put_order, sweep, transition, Progress,
};
use crate::transaction::transfer_of;
use vstd::prelude::*;

verus! {

/// Every identifier of an active order or a pending action is in `known`.
pub open spec fn ids_within(s: StateView, known: Set<[u8; 32]>) -> bool {
    &&& forall|i: int| 0 <= i < s.orders.len() ==> known.contains((#[trigger] s.orders[i]).0)
    &&& forall|i: int|
        0 <= i < s.pending_actions.len() ==> known.contains((#[trigger] s.pending_actions[i]).1)
}

/// The action chain and every identifier of an active order or a pending
/// action are in `known`.
pub open spec fn chain_covers(s: StateView, known: Set<[u8; 32]>) -> bool {
    known.contains(s.action_chain) && ids_within(s, known)
}

/// The values that the action chain takes while `actions` are taken in.
pub open spec fn chain_values(actions: Seq<Action>) -> Set<[u8; 32]> {
    Set::new(|id: [u8; 32]| exists|i: int| 0 <= i < actions.len() && id == action_id(actions[i]))
}

proof fn lemma_ingest_covers(s: StateView, actions: Seq<Action>, from: int, known: Set<[u8; 32]>)
    requires
        0 <= from,
        chain_covers(s, known),
        forall|i: int| 0 <= i < actions.len() ==> known.contains(action_id(#[trigger] actions[i])),
        ingest(s, actions, from) is Ok,
    ensures
        chain_covers(ingest(s, actions, from)->Ok_0, known),
        ingest(s, actions, from)->Ok_0.orders == s.orders,
    decreases actions.len() - from,
{
    if from < actions.len() {
        let id = action_id(actions[from]);
        let next = StateView {
            action_chain: id,
            pending_actions: s.pending_actions.push((actions[from], id)),
            ..s
        };
        assert forall|i: int| 0 <= i < next.pending_actions.len() implies known.contains(
            (#[trigger] next.pending_actions[i]).1,
        ) by {
            if i < s.pending_actions.len() {
                assert(next.pending_actions[i] == s.pending_actions[i]);
            }
        }
        lemma_ingest_covers(next, actions, from + 1, known);
    }
}

proof fn lemma_promote_within(p: Progress, now: u64, known: Set<[u8; 32]>)
    requires
        ids_within(p.state, known),
        promote(p, now) is Ok,
    ensures
        ids_within(promote(p, now)->Ok_0.state, known),
        promote(p, now)->Ok_0.state.action_chain == p.state.action_chain,
        promote(p, now)->Ok_0.state.latest_block_id == p.state.latest_block_id,
        promote(p, now)->Ok_0.state.latest_timestamp == p.state.latest_timestamp,
    decreases p.state.pending_actions.len(),
{
    let s = p.state;
    if s.pending_actions.len() > 0 && s.pending_actions[0].0.timestamp <= now {
        let action = s.pending_actions[0].0;
        let id = s.pending_actions[0].1;
        let rest = s.pending_actions.drop_first();
        assert forall|i: int| 0 <= i < rest.len() implies known.contains((#[trigger] rest[i]).1) by {
            assert(rest[i] == s.pending_actions[i + 1]);
        }
        lemma_order_for(s.orders, action.address, 0);
        match order_for(s.orders, action.address, 0) {
            Some(k) => {
                let left = s.orders.remove(k);
                assert forall|i: int| 0 <= i < left.len() implies known.contains(
                    (#[trigger] left[i]).0,
                ) by {
                    assert(left[i] == s.orders[if i < k {
                        i
                    } else {
                        i + 1
                    }]);
                }
                lemma_promote_within(
                    Progress {
                        state: StateView { pending_actions: rest, orders: left, ..s },
                        closed: p.closed.push(s.orders[k]),
                    },
                    now,
                    known,
                );
            },
            None => {
                lemma_order_under(s.orders, id, 0);
                let put = put_order(s.orders, id, opened_by(action));
                assert(known.contains(s.pending_actions[0].1));
                assert forall|i: int| 0 <= i < put.len() implies known.contains(
                    (#[trigger] put[i]).0,
                ) by {
                    if i < s.orders.len() {
                        assert(put[i].0 == s.orders[i].0);
                    }
                }
                lemma_promote_within(
                    Progress {
                        state: StateView { pending_actions: rest, orders: put, ..s },
                        closed: p.closed,
                    },
                    now,
                    known,
                );
            },
        }
    }
}

proof fn lemma_apply_tx_within(p: Progress, tx: Seq<u8>, known: Set<[u8; 32]>)
    requires
        ids_within(p.state, known),
        apply_tx(p, tx) is Ok,
    ensures
        ids_within(apply_tx(p, tx)->Ok_0.state, known),
        apply_tx(p, tx)->Ok_0.state.action_chain == p.state.action_chain,
        apply_tx(p, tx)->Ok_0.state.latest_block_id == p.state.latest_block_id,
        apply_tx(p, tx)->Ok_0.state.latest_timestamp == p.state.latest_timestamp,
{
    match transfer_of(tx) {
        Err(e) => {},
        Ok(Some(transfer)) => {
            lemma_order_for(p.state.orders, transfer.to, 0);
            match order_for(p.state.orders, transfer.to, 0) {
                None => {},
                Some(k) => {
                    let orders = p.state.orders;
                    let after = credit(p, transfer)->Ok_0.state.orders;
                    assert forall|i: int| 0 <= i < after.len() implies known.contains(
                        (#[trigger] after[i]).0,
                    ) by {
                        if after.len() == orders.len() {
                            assert(after[i].0 == orders[i].0);
                        } else {
                            assert(after[i] == orders[if i < k {
                                i
                            } else {
                                i + 1
                            }]);
                        }
                    }
                },
            }
        },
        Ok(None) => {},
    }
}

proof fn lemma_apply_txs_within(p: Progress, txs: Seq<Vec<u8>>, from: int, known: Set<[u8; 32]>)
    requires
        0 <= from,
        ids_within(p.state, known),
        apply_txs(p, txs, from) is Ok,
    ensures
        ids_within(apply_txs(p, txs, from)->Ok_0.state, known),
        apply_txs(p, txs, from)->Ok_0.state.action_chain == p.state.action_chain,
        apply_txs(p, txs, from)->Ok_0.state.latest_block_id == p.state.latest_block_id,
        apply_txs(p, txs, from)->Ok_0.state.latest_timestamp == p.state.latest_timestamp,
    decreases txs.len() - from,
{
    if from < txs.len() {
        lemma_apply_tx_within(p, txs[from]@, known);
        lemma_apply_txs_within(apply_tx(p, txs[from]@)->Ok_0, txs, from + 1, known);
    }
}

proof fn lemma_content_within(
    p: Progress,
    header: BlockHeader,
    txs: Seq<Vec<u8>>,
    known: Set<[u8; 32]>,
)
    requires
        ids_within(p.state, known),
        content(p, header, txs) is Ok,
    ensures
        ids_within(content(p, header, txs)->Ok_0.state, known),
        content(p, header, txs)->Ok_0.state.action_chain == p.state.action_chain,
        content(p, header, txs)->Ok_0.state.latest_block_id == header.new_block_id,
        content(p, header, txs)->Ok_0.state.latest_timestamp == header.timestamp,
{
    reveal(content);
    let at_block = Progress {
        state: StateView {
            latest_block_id: header.new_block_id,
            latest_timestamp: header.timestamp,
            ..p.state
        },
        closed: p.closed,
    };
    lemma_promote_within(at_block, header.timestamp, known);
    let promoted = promote(at_block, header.timestamp)->Ok_0;
    let swept = sweep(promoted, header.timestamp);
    assert(ids_within(swept.state, known)) by {
        let orders = promoted.state.orders;
        let live = orders.filter(is_live_at(header.timestamp));
        assert forall|i: int| 0 <= i < live.len() implies known.contains((#[trigger] live[i]).0) by {
            orders.lemma_filter_contains_rev(is_live_at(header.timestamp), live[i]);
            let q = choose|q: int| 0 <= q < orders.len() && orders[q] == live[i];
            assert(known.contains(orders[q].0));
        }
    }
    lemma_apply_txs_within(swept, txs, 0, known);
}

/// The block that follows `tip` and is accepted has an identifier.
pub open spec fn accepted_id(tip: [u8; 32], block: RawBlock) -> Option<[u8; 32]> {
    match header_of(tip, block.raw_data@, digest_of(block.raw_data@)) {
        Ok(header) => Some(header.new_block_id),
        Err(_) => None,
    }
}

/// The identifier of the block before `blocks[k]` in the chain that starts
/// after `first`: `first` itself for `k = 0`. `None` where a header on the
/// way is rejected.
pub open spec fn tip_before(first: [u8; 32], blocks: Seq<RawBlock>, k: int) -> Option<[u8; 32]>
    decreases k,
{
    if k <= 0 {
        Some(first)
    } else {
        match tip_before(first, blocks, k - 1) {
            Some(tip) => accepted_id(tip, blocks[k - 1]),
            None => None,
        }
    }
}

proof fn lemma_process_block_history(
    p: Progress,
    tip: [u8; 32],
    block: RawBlock,
    is_final: bool,
    known: Set<[u8; 32]>,
)
    requires
        ids_within(p.state, known),
        process_block(p, tip, block, is_final) is Ok,
    ensures
        ids_within(process_block(p, tip, block, is_final)->Ok_0.0.state, known),
        process_block(p, tip, block, is_final)->Ok_0.0.state.action_chain == p.state.action_chain,
        accepted_id(tip, block) == Some(process_block(p, tip, block, is_final)->Ok_0.1),
        process_block(p, tip, block, is_final)->Ok_0.0.state.latest_block_id == if is_final {
            process_block(p, tip, block, is_final)->Ok_0.1
        } else {
            p.state.latest_block_id
        },
{
    reveal(process_block);
    let checked = consensus(p.state, tip, block)->Ok_0;
    if is_final {
        lemma_content_within(
            Progress { state: checked.0, closed: p.closed },
            checked.1,
            block.txs@,
            known,
        );
    }
}

proof fn lemma_process_blocks_history(
    p: Progress,
    tip: [u8; 32],
    first: [u8; 32],
    blocks: Seq<RawBlock>,
    from: int,
    known: Set<[u8; 32]>,
)
    requires
        0 <= from <= blocks.len(),
        ids_within(p.state, known),
        forall|k: int| 0 <= k <= from ==> tip_before(first, blocks, k) is Some,
        tip_before(first, blocks, from) == Some(tip),
        process_blocks(p, tip, blocks, from) is Ok,
    ensures
        ids_within(process_blocks(p, tip, blocks, from)->Ok_0.state, known),
        process_blocks(p, tip, blocks, from)->Ok_0.state.action_chain == p.state.action_chain,
        forall|k: int| 0 <= k <= blocks.len() ==> tip_before(first, blocks, k) is Some,
        process_blocks(p, tip, blocks, from)->Ok_0.state.latest_block_id == if blocks.len() - from
            > 19 {
            tip_before(first, blocks, blocks.len() - 19)->Some_0
        } else {
            p.state.latest_block_id
        },
    decreases blocks.len() - from,
{
    if from < blocks.len() {
        let is_final = blocks.len() - from > 19;
        lemma_process_block_history(p, tip, blocks[from], is_final, known);
        let step = process_block(p, tip, blocks[from], is_final)->Ok_0;
        assert(tip_before(first, blocks, from + 1) == Some(step.1));
        lemma_process_blocks_history(step.0, step.1, first, blocks, from + 1, known);
    }
}

/// After a transition, every identifier of an active order or a pending
/// action was a value of the action chain at some time: it is among the
/// values known before, or among those that the chain took while the new
/// actions were taken in. The chain itself stands at one of them.
pub proof fn lemma_order_ids_come_from_chain(
    s: StateView,
    actions: Seq<Action>,
    blocks: Seq<RawBlock>,
    known: Set<[u8; 32]>,
)
    requires
        chain_covers(s, known),
        transition(s, actions, blocks) is Ok,
    ensures
        chain_covers(transition(s, actions, blocks)->Ok_0.state, known.union(chain_values(actions))),
{
    let all = known.union(chain_values(actions));
    lemma_ingest_covers(s, actions, 0, all);
    let taken = ingest(s, actions, 0)->Ok_0;
    lemma_process_blocks_history(
        Progress { state: taken, closed: Seq::empty() },
        taken.latest_block_id,
        taken.latest_block_id,
        blocks,
        0,
        all,
    );
}

/// After a transition over `n` blocks, each block was accepted as the
/// successor of the one before it, starting after the block that the state
/// stood at, and the state stands at block `n - 19`: the newest 19 blocks
/// are checked and not yet applied.
pub proof fn lemma_state_stands_at_final_block(
    s: StateView,
    actions: Seq<Action>,
    blocks: Seq<RawBlock>,
)
    requires
        transition(s, actions, blocks) is Ok,
    ensures
        blocks.len() >= 120,
        forall|k: int|
            0 <= k <= blocks.len() ==> (#[trigger] tip_before(s.latest_block_id, blocks, k)) is Some,
        transition(s, actions, blocks)->Ok_0.state.latest_block_id == tip_before(
            s.latest_block_id,
            blocks,
            blocks.len() - 19,
        )->Some_0,
{
    let known = Set::<[u8; 32]>::full();
    lemma_ingest_frame(s, actions, 0);
    let taken = ingest(s, actions, 0)->Ok_0;
    lemma_process_blocks_history(
        Progress { state: taken, closed: Seq::empty() },
        taken.latest_block_id,
        taken.latest_block_id,
        blocks,
        0,
        known,
    );
}

proof fn lemma_ingest_frame(s: StateView, actions: Seq<Action>, from: int)
    requires
        0 <= from,
        ingest(s, actions, from) is Ok,
    ensures
        ingest(s, actions, from)->Ok_0.latest_block_id == s.latest_block_id,
    decreases actions.len() - from,
{
    if from < actions.len() {
        let id = action_id(actions[from]);
        let next = StateView {
            action_chain: id,
            pending_actions: s.pending_actions.push((actions[from], id)),
            ..s
        };
        lemma_ingest_frame(next, actions, from + 1);
    }
}

} // verus!
