//! What holds of every state that a transition leaves behind, given that it
//! held of the state before.

use crate::election::{by_rank, elected, lemma_rank_is_total_order, ranking};
use crate::header::BlockHeader;
use crate::model::{Action, OrderState, RawBlock, StateView};
use crate::rules::{
    apply_tx, apply_txs, consensus, content, count_vote, count_votes, credit,
    ingest, is_live_at, maintain, opened_by, order_for, order_under, process_block,
    process_blocks, promote, put_order, sweep, transition, votes_for, Progress,
};
use crate::transaction::{transfer_of, votes_of, UsdtTransfer, Vote};
use vstd::prelude::*;

verus! {

/// The window holds at most 19 producers, all different and all in the
/// producer set.
pub open spec fn window_ok(s: StateView) -> bool {
    &&& s.cycle.len() <= 19
    &&& s.cycle.no_duplicates()
    &&& forall|i: int| 0 <= i < s.cycle.len() ==> s.srs.contains(#[trigger] s.cycle[i])
}

/// The producer set holds 27 producers, all different.
pub open spec fn producers_ok(s: StateView) -> bool {
    &&& s.srs.len() == 27
    &&& s.srs.no_duplicates()
}

/// Every order is short of its size, and no two orders share a receiver or an
/// identifier.
pub open spec fn orders_ok(orders: Seq<([u8; 32], OrderState)>) -> bool {
    &&& forall|i: int|
        0 <= i < orders.len() ==> (#[trigger] orders[i]).1.inflow < orders[i].1.size
    &&& forall|i: int, j: int|
        0 <= i < j < orders.len() ==> (#[trigger] orders[i]).1.address != (
        #[trigger] orders[j]).1.address
    &&& forall|i: int, j: int|
        0 <= i < j < orders.len() ==> (#[trigger] orders[i]).0 != (#[trigger] orders[j]).0
}

/// Every pending action asks for an order of positive size.
pub open spec fn pending_ok(pending: Seq<(Action, [u8; 32])>) -> bool {
    forall|i: int| 0 <= i < pending.len() ==> (#[trigger] pending[i]).0.size > 0
}

/// No candidate is counted twice.
pub open spec fn votes_ok(votes: Seq<([u8; 20], u64)>) -> bool {
    forall|i: int, j: int|
        0 <= i < j < votes.len() ==> (#[trigger] votes[i]).0 != (#[trigger] votes[j]).0
}

/// The invariants of a state.
pub open spec fn well_formed(s: StateView) -> bool {
    &&& window_ok(s)
    &&& producers_ok(s)
    &&& orders_ok(s.orders)
    &&& pending_ok(s.pending_actions)
    &&& votes_ok(s.votes)
}

/// Every action asks for an order of positive size.
pub open spec fn actions_ok(actions: Seq<Action>) -> bool {
    forall|i: int| 0 <= i < actions.len() ==> (#[trigger] actions[i]).size > 0
}

/// What the search for an order by its receiver finds.
pub proof fn lemma_order_for(orders: Seq<([u8; 32], OrderState)>, address: [u8; 20], from: int)
    requires
        0 <= from,
    ensures
        match order_for(orders, address, from) {
            Some(i) => from <= i < orders.len() && orders[i].1.address == address,
            None => forall|i: int| from <= i < orders.len() ==> orders[i].1.address != address,
        },
    decreases orders.len() - from,
{
    if from < orders.len() && orders[from].1.address != address {
        lemma_order_for(orders, address, from + 1);
    }
}

/// What the search for an order by its identifier finds.
pub proof fn lemma_order_under(orders: Seq<([u8; 32], OrderState)>, id: [u8; 32], from: int)
    requires
        0 <= from,
    ensures
        match order_under(orders, id, from) {
            Some(i) => from <= i < orders.len() && orders[i].0 == id,
            None => forall|i: int| from <= i < orders.len() ==> orders[i].0 != id,
        },
    decreases orders.len() - from,
{
    if from < orders.len() && orders[from].0 != id {
        lemma_order_under(orders, id, from + 1);
    }
}

/// What the search for the votes of a candidate finds.
pub proof fn lemma_votes_for(votes: Seq<([u8; 20], u64)>, candidate: [u8; 20], from: int)
    requires
        0 <= from,
    ensures
        match votes_for(votes, candidate, from) {
            Some(i) => from <= i < votes.len() && votes[i].0 == candidate,
            None => forall|i: int| from <= i < votes.len() ==> votes[i].0 != candidate,
        },
    decreases votes.len() - from,
{
    if from < votes.len() && votes[from].0 != candidate {
        lemma_votes_for(votes, candidate, from + 1);
    }
}

proof fn lemma_ingest_keeps(s: StateView, actions: Seq<Action>, from: int)
    requires
        0 <= from,
        well_formed(s),
        actions_ok(actions),
        ingest(s, actions, from) is Ok,
    ensures
        well_formed(ingest(s, actions, from)->Ok_0),
    decreases actions.len() - from,
{
    if from < actions.len() {
        let next = StateView {
            action_chain: crate::model::action_id(actions[from]),
            pending_actions: s.pending_actions.push(
                (actions[from], crate::model::action_id(actions[from])),
            ),
            ..s
        };
        assert(pending_ok(next.pending_actions)) by {
            assert forall|i: int| 0 <= i < next.pending_actions.len() implies (
            #[trigger] next.pending_actions[i]).0.size > 0 by {
                if i < s.pending_actions.len() {
                    assert(next.pending_actions[i] == s.pending_actions[i]);
                }
            }
        }
        lemma_ingest_keeps(next, actions, from + 1);
    }
}

proof fn lemma_consensus_keeps(s: StateView, tip: [u8; 32], block: RawBlock)
    requires
        well_formed(s),
        consensus(s, tip, block) is Ok,
    ensures
        well_formed(consensus(s, tip, block)->Ok_0.0),
{
    let after = consensus(s, tip, block)->Ok_0.0;
    let producer = crate::crypto::signer_of(
        block.signature@,
        crate::crypto::digest_of(block.raw_data@),
    )->Some_0;
    let window = if s.cycle.len() == 19 {
        s.cycle.drop_first()
    } else {
        s.cycle
    };
    assert(after.cycle == window.push(producer));
    assert(s.srs.contains(producer));
    assert(!window.contains(producer));
    assert forall|i: int| 0 <= i < window.len() implies s.srs.contains(#[trigger] window[i]) by {
        if s.cycle.len() == 19 {
            assert(window[i] == s.cycle[i + 1]);
        }
    }
    assert(window.no_duplicates()) by {
        assert forall|i: int, j: int| 0 <= i < window.len() && 0 <= j < window.len() && i != j
            implies window[i] != window[j] by {
            if s.cycle.len() == 19 {
                assert(window[i] == s.cycle[i + 1] && window[j] == s.cycle[j + 1]);
            }
        }
    }
    assert(after.cycle.no_duplicates()) by {
        assert forall|i: int, j: int|
            0 <= i < after.cycle.len() && 0 <= j < after.cycle.len() && i != j implies
            after.cycle[i] != after.cycle[j] by {
            if i < window.len() {
                assert(after.cycle[i] == window[i]);
            }
            if j < window.len() {
                assert(after.cycle[j] == window[j]);
            }
        }
    }
    assert forall|i: int| 0 <= i < after.cycle.len() implies after.srs.contains(
        #[trigger] after.cycle[i],
    ) by {
        if i < window.len() {
            assert(after.cycle[i] == window[i]);
        }
    }
}

proof fn lemma_remove_keeps_orders(orders: Seq<([u8; 32], OrderState)>, i: int)
    requires
        orders_ok(orders),
        0 <= i < orders.len(),
    ensures
        orders_ok(orders.remove(i)),
{
    let after = orders.remove(i);
    assert forall|a: int| 0 <= a < after.len() implies #[trigger] after[a] == orders[if a < i {
        a
    } else {
        a + 1
    }] by {}
    assert forall|a: int| 0 <= a < after.len() implies (#[trigger] after[a]).1.inflow
        < after[a].1.size by {
        assert(after[a] == orders[if a < i {
            a
        } else {
            a + 1
        }]);
    }
    assert forall|a: int, b: int| 0 <= a < b < after.len() implies (
    #[trigger] after[a]).1.address != (#[trigger] after[b]).1.address && after[a].0
        != after[b].0 by {
        let x = if a < i {
            a
        } else {
            a + 1
        };
        let y = if b < i {
            b
        } else {
            b + 1
        };
        assert(after[a] == orders[x] && after[b] == orders[y]);
    }
}

proof fn lemma_update_keeps_orders(
    orders: Seq<([u8; 32], OrderState)>,
    i: int,
    order: OrderState,
)
    requires
        orders_ok(orders),
        0 <= i < orders.len(),
        order.address == orders[i].1.address,
        order.inflow < order.size,
    ensures
        orders_ok(orders.update(i, (orders[i].0, order))),
{
    let after = orders.update(i, (orders[i].0, order));
    assert forall|a: int, b: int| 0 <= a < b < after.len() implies (
    #[trigger] after[a]).1.address != (#[trigger] after[b]).1.address && after[a].0
        != after[b].0 by {
        assert(after[a].1.address == orders[a].1.address && after[a].0 == orders[a].0);
        assert(after[b].1.address == orders[b].1.address && after[b].0 == orders[b].0);
    }
}

proof fn lemma_put_keeps_orders(
    orders: Seq<([u8; 32], OrderState)>,
    id: [u8; 32],
    order: OrderState,
)
    requires
        orders_ok(orders),
        order.inflow < order.size,
        order_for(orders, order.address, 0) is None,
    ensures
        orders_ok(put_order(orders, id, order)),
{
    lemma_order_for(orders, order.address, 0);
    lemma_order_under(orders, id, 0);
    let after = put_order(orders, id, order);
    match order_under(orders, id, 0) {
        Some(i) => {
            assert forall|a: int, b: int| 0 <= a < b < after.len() implies (
            #[trigger] after[a]).1.address != (#[trigger] after[b]).1.address && after[a].0
                != after[b].0 by {
                assert(a != i ==> after[a] == orders[a]);
                assert(b != i ==> after[b] == orders[b]);
                assert(after[a].0 == orders[a].0 && after[b].0 == orders[b].0);
            }
            assert forall|a: int| 0 <= a < after.len() implies (#[trigger] after[a]).1.inflow
                < after[a].1.size by {
                assert(a != i ==> after[a] == orders[a]);
            }
        },
        None => {
            assert forall|a: int, b: int| 0 <= a < b < after.len() implies (
            #[trigger] after[a]).1.address != (#[trigger] after[b]).1.address && after[a].0
                != after[b].0 by {
                assert(after[a] == orders[a]);
                assert(b < orders.len() ==> after[b] == orders[b]);
            }
            assert forall|a: int| 0 <= a < after.len() implies (#[trigger] after[a]).1.inflow
                < after[a].1.size by {
                assert(a < orders.len() ==> after[a] == orders[a]);
            }
        },
    }
}

proof fn lemma_promote_keeps(p: Progress, now: u64)
    requires
        well_formed(p.state),
        promote(p, now) is Ok,
    ensures
        well_formed(promote(p, now)->Ok_0.state),
    decreases p.state.pending_actions.len(),
{
    let s = p.state;
    if s.pending_actions.len() > 0 && s.pending_actions[0].0.timestamp <= now {
        let action = s.pending_actions[0].0;
        let id = s.pending_actions[0].1;
        let rest = s.pending_actions.drop_first();
        assert(pending_ok(rest)) by {
            assert forall|i: int| 0 <= i < rest.len() implies (#[trigger] rest[i]).0.size > 0 by {
                assert(rest[i] == s.pending_actions[i + 1]);
            }
        }
        lemma_order_for(s.orders, action.address, 0);
        match order_for(s.orders, action.address, 0) {
            Some(i) => {
                lemma_remove_keeps_orders(s.orders, i);
                lemma_promote_keeps(
                    Progress {
                        state: StateView {
                            pending_actions: rest,
                            orders: s.orders.remove(i),
                            ..s
                        },
                        closed: p.closed.push(s.orders[i]),
                    },
                    now,
                );
            },
            None => {
                lemma_put_keeps_orders(s.orders, id, opened_by(action));
                lemma_promote_keeps(
                    Progress {
                        state: StateView {
                            pending_actions: rest,
                            orders: put_order(s.orders, id, opened_by(action)),
                            ..s
                        },
                        closed: p.closed,
                    },
                    now,
                );
            },
        }
    }
}

/// A part of the orders picked by a test on each order has the properties of
/// the whole, and holds no order that the whole does not hold.
pub proof fn lemma_filter_keeps_orders(
    orders: Seq<([u8; 32], OrderState)>,
    pick: spec_fn(([u8; 32], OrderState)) -> bool,
)
    requires
        orders_ok(orders),
    ensures
        orders_ok(orders.filter(pick)),
        forall|k: int|
            0 <= k < orders.filter(pick).len() ==> orders.contains(
                #[trigger] orders.filter(pick)[k],
            ) && pick(orders.filter(pick)[k]),
    decreases orders.len(),
{
    reveal(Seq::filter);
    if orders.len() > 0 {
        let rest = orders.drop_last();
        let last = orders.last();
        assert forall|a: int| 0 <= a < rest.len() implies #[trigger] rest[a] == orders[a] by {}
        assert(orders_ok(rest)) by {
            assert forall|a: int, b: int| 0 <= a < b < rest.len() implies (
            #[trigger] rest[a]).1.address != (#[trigger] rest[b]).1.address && rest[a].0
                != rest[b].0 by {
                assert(rest[a] == orders[a] && rest[b] == orders[b]);
            }
            assert forall|a: int| 0 <= a < rest.len() implies (#[trigger] rest[a]).1.inflow
                < rest[a].1.size by {
                assert(rest[a] == orders[a]);
            }
        }
        lemma_filter_keeps_orders(rest, pick);
        let part = rest.filter(pick);
        let whole = orders.filter(pick);
        assert forall|k: int| 0 <= k < part.len() implies orders.contains(#[trigger] part[k])
            && rest.contains(part[k]) by {
            assert(rest.contains(part[k]));
            let q = choose|q: int| 0 <= q < rest.len() && rest[q] == part[k];
            assert(orders[q] == part[k]);
        }
        if pick(last) {
            assert(whole == part.push(last));
            assert(orders[orders.len() - 1] == last);
            assert forall|k: int| 0 <= k < whole.len() implies orders.contains(
                #[trigger] whole[k],
            ) && pick(whole[k]) by {
                if k < part.len() {
                    assert(whole[k] == part[k]);
                }
            }
            assert forall|a: int, b: int| 0 <= a < b < whole.len() implies (
            #[trigger] whole[a]).1.address != (#[trigger] whole[b]).1.address && whole[a].0
                != whole[b].0 by {
                assert(whole[a] == part[a]);
                if b < part.len() {
                    assert(whole[b] == part[b]);
                } else {
                    assert(rest.contains(part[a]));
                    let q = choose|q: int| 0 <= q < rest.len() && rest[q] == part[a];
                    assert(orders[q] == whole[a]);
                    assert(whole[b] == orders[orders.len() - 1]);
                }
            }
            assert forall|a: int| 0 <= a < whole.len() implies (#[trigger] whole[a]).1.inflow
                < whole[a].1.size by {
                if a < part.len() {
                    assert(whole[a] == part[a]);
                }
            }
        } else {
            assert(whole == part);
        }
    }
}

proof fn lemma_credit_keeps(p: Progress, transfer: UsdtTransfer)
    requires
        well_formed(p.state),
        credit(p, transfer) is Ok,
    ensures
        well_formed(credit(p, transfer)->Ok_0.state),
{
    lemma_order_for(p.state.orders, transfer.to, 0);
    match order_for(p.state.orders, transfer.to, 0) {
        None => {},
        Some(i) => {
            let order = p.state.orders[i].1;
            if transfer.value >= order.min_deposit {
                let paid = OrderState { inflow: (order.inflow + transfer.value) as u64, ..order };
                if paid.inflow >= paid.size {
                    lemma_remove_keeps_orders(p.state.orders, i);
                } else {
                    lemma_update_keeps_orders(p.state.orders, i, paid);
                }
            }
        },
    }
}

proof fn lemma_count_vote_keeps(votes: Seq<([u8; 20], u64)>, vote: Vote)
    requires
        votes_ok(votes),
        count_vote(votes, vote) is Some,
    ensures
        votes_ok(count_vote(votes, vote)->Some_0),
{
    lemma_votes_for(votes, vote.witness_address, 0);
    let after = count_vote(votes, vote)->Some_0;
    assert forall|a: int, b: int| 0 <= a < b < after.len() implies (#[trigger] after[a]).0 != (
    #[trigger] after[b]).0 by {
        assert(after[a].0 == votes[a].0);
        if b < votes.len() {
            assert(after[b].0 == votes[b].0);
        }
    }
}

proof fn lemma_count_votes_keeps(votes: Seq<([u8; 20], u64)>, cast: Seq<Vote>, from: int)
    requires
        0 <= from,
        votes_ok(votes),
        count_votes(votes, cast, from) is Some,
    ensures
        votes_ok(count_votes(votes, cast, from)->Some_0),
    decreases cast.len() - from,
{
    if from < cast.len() {
        lemma_count_vote_keeps(votes, cast[from]);
        lemma_count_votes_keeps(count_vote(votes, cast[from])->Some_0, cast, from + 1);
    }
}

proof fn lemma_apply_tx_keeps(p: Progress, tx: Seq<u8>)
    requires
        well_formed(p.state),
        apply_tx(p, tx) is Ok,
    ensures
        well_formed(apply_tx(p, tx)->Ok_0.state),
{
    match transfer_of(tx) {
        Err(e) => {},
        Ok(Some(transfer)) => {
            lemma_credit_keeps(p, transfer);
        },
        Ok(None) => match votes_of(tx) {
            Err(e) => {},
            Ok(None) => {},
            Ok(Some((_, cast))) => {
                lemma_count_votes_keeps(p.state.votes, cast, 0);
            },
        },
    }
}

proof fn lemma_apply_txs_keeps(p: Progress, txs: Seq<Vec<u8>>, from: int)
    requires
        0 <= from,
        well_formed(p.state),
        apply_txs(p, txs, from) is Ok,
    ensures
        well_formed(apply_txs(p, txs, from)->Ok_0.state),
    decreases txs.len() - from,
{
    if from < txs.len() {
        lemma_apply_tx_keeps(p, txs[from]@);
        lemma_apply_txs_keeps(apply_tx(p, txs[from]@)->Ok_0, txs, from + 1);
    }
}

/// Of candidates that are counted once each, the elected are 27 different
/// addresses.
pub proof fn lemma_elected_differ(votes: Seq<([u8; 20], u64)>)
    requires
        votes_ok(votes),
        votes.len() >= 27,
    ensures
        elected(votes).len() == 27,
        elected(votes).no_duplicates(),
{
    broadcast use vstd::seq_lib::group_to_multiset_ensures;

    let ranked = ranking(votes);
    lemma_rank_is_total_order();
    votes.lemma_sort_by_ensures(by_rank());
    assert(votes.no_duplicates()) by {
        assert forall|i: int, j: int| 0 <= i < votes.len() && 0 <= j < votes.len() && i != j
            implies votes[i] != votes[j] by {
            if i < j {
                assert(votes[i].0 != votes[j].0);
            } else {
                assert(votes[j].0 != votes[i].0);
            }
        }
    }
    votes.lemma_multiset_has_no_duplicates();
    ranked.lemma_multiset_has_no_duplicates_conv();
    vstd::seq_lib::to_multiset_len(votes);
    vstd::seq_lib::to_multiset_len(ranked);
    assert(ranked.len() == votes.len());
    let chosen = elected(votes);
    let first = votes.len() - 27;
    assert forall|i: int, j: int| 0 <= i < chosen.len() && 0 <= j < chosen.len() && i != j
        implies chosen[i] != chosen[j] by {
        let a = ranked[first + i];
        let b = ranked[first + j];
        assert(a != b);
        assert(ranked.contains(a) && ranked.contains(b));
        assert(votes.to_multiset().count(a) > 0 && votes.to_multiset().count(b) > 0);
        assert(votes.contains(a) && votes.contains(b));
        let x = choose|x: int| 0 <= x < votes.len() && votes[x] == a;
        let y = choose|y: int| 0 <= y < votes.len() && votes[y] == b;
        if x < y {
            assert(votes[x].0 != votes[y].0);
        } else {
            assert(votes[y].0 != votes[x].0);
        }
    }
}

proof fn lemma_maintain_keeps(s: StateView)
    requires
        well_formed(s),
        maintain(s) is Ok,
    ensures
        well_formed(maintain(s)->Ok_0),
{
    if crate::rules::starts_maintenance(s.latest_block_id) {
        lemma_elected_differ(s.votes);
    }
}

proof fn lemma_content_keeps(p: Progress, header: BlockHeader, txs: Seq<Vec<u8>>)
    requires
        well_formed(p.state),
        content(p, header, txs) is Ok,
    ensures
        well_formed(content(p, header, txs)->Ok_0.state),
{
    reveal(content);
    let at_block = Progress {
        state: StateView {
            latest_block_id: header.new_block_id,
            latest_timestamp: header.timestamp,
            ..p.state
        },
        closed: p.closed,
    };
    lemma_promote_keeps(at_block, header.timestamp);
    let promoted = promote(at_block, header.timestamp)->Ok_0;
    lemma_filter_keeps_orders(promoted.state.orders, is_live_at(header.timestamp));
    let swept = sweep(promoted, header.timestamp);
    lemma_apply_txs_keeps(swept, txs, 0);
    lemma_maintain_keeps(apply_txs(swept, txs, 0)->Ok_0.state);
}

proof fn lemma_process_block_keeps(p: Progress, tip: [u8; 32], block: RawBlock, is_final: bool)
    requires
        well_formed(p.state),
        process_block(p, tip, block, is_final) is Ok,
    ensures
        well_formed(process_block(p, tip, block, is_final)->Ok_0.0.state),
{
    reveal(process_block);
    lemma_consensus_keeps(p.state, tip, block);
    if is_final {
        let checked = consensus(p.state, tip, block)->Ok_0;
        lemma_content_keeps(Progress { state: checked.0, closed: p.closed }, checked.1, block.txs@);
    }
}

proof fn lemma_process_blocks_keeps(p: Progress, tip: [u8; 32], blocks: Seq<RawBlock>, from: int)
    requires
        0 <= from,
        well_formed(p.state),
        process_blocks(p, tip, blocks, from) is Ok,
    ensures
        well_formed(process_blocks(p, tip, blocks, from)->Ok_0.state),
    decreases blocks.len() - from,
{
    if from < blocks.len() {
        let is_final = blocks.len() - from > 19;
        lemma_process_block_keeps(p, tip, blocks[from], is_final);
        let step = process_block(p, tip, blocks[from], is_final)->Ok_0;
        lemma_process_blocks_keeps(step.0, step.1, blocks, from + 1);
    }
}

/// A transition that succeeds on a state that meets the invariants, with
/// actions of positive size, leaves a state that meets them: the window holds
/// at most 19 different producers, all of the producer set; the producer set
/// holds 27 different producers; every order is short of its size; no two
/// orders share a receiver or an identifier; no candidate is counted twice.
pub proof fn lemma_transition_keeps_invariants(
    s: StateView,
    actions: Seq<Action>,
    blocks: Seq<RawBlock>,
)
    requires
        well_formed(s),
        actions_ok(actions),
        transition(s, actions, blocks) is Ok,
    ensures
        well_formed(transition(s, actions, blocks)->Ok_0.state),
{
    lemma_ingest_keeps(s, actions, 0);
    let taken = ingest(s, actions, 0)->Ok_0;
    lemma_process_blocks_keeps(
        Progress { state: taken, closed: Seq::empty() },
        taken.latest_block_id,
        blocks,
        0,
    );
}

} // verus!
