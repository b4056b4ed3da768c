//! An order that a transition closes is gone from the active orders.

use crate::header::BlockHeader;
use crate::invariants::{lemma_order_for, lemma_order_under};
use crate::model::{Action, OrderState, RawBlock, StateView};
use crate::rules::{
    apply_tx, apply_txs, consensus, content, credit, ingest, is_expired_at, is_live_at,
    opened_by, order_for, order_under, process_block, process_blocks, promote, put_order, sweep,
    transition, Progress,
};
use crate::transaction::{transfer_of, UsdtTransfer};
use vstd::prelude::*;

verus! {

/// No identifier occurs twice among the active orders and the pending
/// actions, and none of them is the identifier of a closed order.
pub open spec fn ids_apart(p: Progress) -> bool {
    let orders = p.state.orders;
    let pending = p.state.pending_actions;
    &&& forall|i: int, j: int|
        0 <= i < j < orders.len() ==> (#[trigger] orders[i]).0 != (#[trigger] orders[j]).0
    &&& forall|i: int, j: int|
        0 <= i < j < pending.len() ==> (#[trigger] pending[i]).1 != (#[trigger] pending[j]).1
    &&& forall|i: int, j: int|
        0 <= i < orders.len() && 0 <= j < pending.len() ==> (#[trigger] orders[i]).0 != (
        #[trigger] pending[j]).1
    &&& forall|i: int, j: int|
        0 <= i < p.closed.len() && 0 <= j < orders.len() ==> (#[trigger] p.closed[i]).0 != (
        #[trigger] orders[j]).0
    &&& forall|i: int, j: int|
        0 <= i < p.closed.len() && 0 <= j < pending.len() ==> (#[trigger] p.closed[i]).0 != (
        #[trigger] pending[j]).1
}

/// No closed order has the identifier of an active order.
pub open spec fn closed_are_gone(p: Progress) -> bool {
    forall|i: int, j: int|
        0 <= i < p.closed.len() && 0 <= j < p.state.orders.len() ==> (#[trigger] p.closed[i]).0
            != (#[trigger] p.state.orders[j]).0
}

proof fn lemma_close_keeps_apart(p: Progress, i: int, entry: ([u8; 32], OrderState))
    requires
        ids_apart(p),
        0 <= i < p.state.orders.len(),
        entry.0 == p.state.orders[i].0,
    ensures
        ids_apart(
            Progress {
                state: StateView { orders: p.state.orders.remove(i), ..p.state },
                closed: p.closed.push(entry),
            },
        ),
{
    let orders = p.state.orders;
    let pending = p.state.pending_actions;
    let left = orders.remove(i);
    let closed = p.closed.push(entry);
    assert forall|a: int| 0 <= a < left.len() implies #[trigger] left[a] == orders[if a < i {
        a
    } else {
        a + 1
    }] by {}
    assert forall|a: int, b: int| 0 <= a < b < left.len() implies (#[trigger] left[a]).0 != (
    #[trigger] left[b]).0 by {
        let x = if a < i {
            a
        } else {
            a + 1
        };
        let y = if b < i {
            b
        } else {
            b + 1
        };
        assert(left[a] == orders[x] && left[b] == orders[y]);
    }
    assert forall|a: int, b: int| 0 <= a < left.len() && 0 <= b < pending.len() implies (
    #[trigger] left[a]).0 != (#[trigger] pending[b]).1 by {
        let x = if a < i {
            a
        } else {
            a + 1
        };
        assert(left[a] == orders[x]);
    }
    assert forall|a: int, b: int| 0 <= a < closed.len() && 0 <= b < left.len() implies (
    #[trigger] closed[a]).0 != (#[trigger] left[b]).0 by {
        let y = if b < i {
            b
        } else {
            b + 1
        };
        assert(left[b] == orders[y]);
        if a < p.closed.len() {
            assert(closed[a] == p.closed[a]);
        } else {
            assert(closed[a].0 == orders[i].0);
            if i < y {
                assert(orders[i].0 != orders[y].0);
            } else {
                assert(orders[y].0 != orders[i].0);
            }
        }
    }
    assert forall|a: int, b: int| 0 <= a < closed.len() && 0 <= b < pending.len() implies (
    #[trigger] closed[a]).0 != (#[trigger] pending[b]).1 by {
        if a < p.closed.len() {
            assert(closed[a] == p.closed[a]);
        } else {
            assert(closed[a].0 == orders[i].0);
        }
    }
}

proof fn lemma_rest_keeps_apart(p: Progress)
    requires
        ids_apart(p),
        p.state.pending_actions.len() > 0,
    ensures
        ids_apart(
            Progress {
                state: StateView {
                    pending_actions: p.state.pending_actions.drop_first(),
                    ..p.state
                },
                closed: p.closed,
            },
        ),
        forall|j: int|
            0 <= j < p.state.pending_actions.drop_first().len() ==> (
            #[trigger] p.state.pending_actions.drop_first()[j]).1 != p.state.pending_actions[0].1,
{
    let pending = p.state.pending_actions;
    let rest = pending.drop_first();
    assert forall|j: int| 0 <= j < rest.len() implies #[trigger] rest[j] == pending[j + 1] by {}
    assert forall|a: int, b: int| 0 <= a < b < rest.len() implies (#[trigger] rest[a]).1 != (
    #[trigger] rest[b]).1 by {
        assert(rest[a] == pending[a + 1] && rest[b] == pending[b + 1]);
    }
    assert forall|a: int, b: int| 0 <= a < p.state.orders.len() && 0 <= b < rest.len() implies (
    #[trigger] p.state.orders[a]).0 != (#[trigger] rest[b]).1 by {
        assert(rest[b] == pending[b + 1]);
    }
    assert forall|a: int, b: int| 0 <= a < p.closed.len() && 0 <= b < rest.len() implies (
    #[trigger] p.closed[a]).0 != (#[trigger] rest[b]).1 by {
        assert(rest[b] == pending[b + 1]);
    }
    assert forall|j: int| 0 <= j < rest.len() implies (#[trigger] rest[j]).1 != pending[0].1 by {
        assert(rest[j] == pending[j + 1]);
    }
}

proof fn lemma_promote_keeps_apart(p: Progress, now: u64)
    requires
        ids_apart(p),
        promote(p, now) is Ok,
    ensures
        ids_apart(promote(p, now)->Ok_0),
    decreases p.state.pending_actions.len(),
{
    let s = p.state;
    if s.pending_actions.len() > 0 && s.pending_actions[0].0.timestamp <= now {
        let action = s.pending_actions[0].0;
        let id = s.pending_actions[0].1;
        let rest = s.pending_actions.drop_first();
        lemma_rest_keeps_apart(p);
        let popped = Progress { state: StateView { pending_actions: rest, ..s }, closed: p.closed };
        lemma_order_for(s.orders, action.address, 0);
        match order_for(s.orders, action.address, 0) {
            Some(i) => {
                lemma_close_keeps_apart(popped, i, s.orders[i]);
                lemma_promote_keeps_apart(
                    Progress {
                        state: StateView {
                            pending_actions: rest,
                            orders: s.orders.remove(i),
                            ..s
                        },
                        closed: p.closed.push(s.orders[i]),
                    },
                    now,
                );
            },
            None => {
                lemma_order_under(s.orders, id, 0);
                assert(order_under(s.orders, id, 0) is None) by {
                    if order_under(s.orders, id, 0) is Some {
                        let k = order_under(s.orders, id, 0)->Some_0;
                        assert(s.orders[k].0 != s.pending_actions[0].1);
                    }
                }
                let put = put_order(s.orders, id, opened_by(action));
                assert(put == s.orders.push((id, opened_by(action))));
                let next = Progress {
                    state: StateView { pending_actions: rest, orders: put, ..s },
                    closed: p.closed,
                };
                assert(ids_apart(next)) by {
                    assert forall|a: int, b: int| 0 <= a < b < put.len() implies (
                    #[trigger] put[a]).0 != (#[trigger] put[b]).0 by {
                        assert(put[a] == s.orders[a]);
                        if b < s.orders.len() {
                            assert(put[b] == s.orders[b]);
                        } else {
                            assert(s.orders[a].0 != s.pending_actions[0].1);
                        }
                    }
                    assert forall|a: int, b: int| 0 <= a < put.len() && 0 <= b < rest.len() implies (
                    #[trigger] put[a]).0 != (#[trigger] rest[b]).1 by {
                        if a < s.orders.len() {
                            assert(put[a] == s.orders[a]);
                        }
                    }
                    assert forall|a: int, b: int|
                        0 <= a < p.closed.len() && 0 <= b < put.len() implies (
                    #[trigger] p.closed[a]).0 != (#[trigger] put[b]).0 by {
                        if b < s.orders.len() {
                            assert(put[b] == s.orders[b]);
                        } else {
                            assert(p.closed[a].0 != s.pending_actions[0].1);
                        }
                    }
                }
                lemma_promote_keeps_apart(next, now);
            },
        }
    }
}

/// The orders that a test picks keep their different identifiers, and each
/// of them is one of the whole and passes the test.
pub proof fn lemma_filter_keeps_ids(
    orders: Seq<([u8; 32], OrderState)>,
    pick: spec_fn(([u8; 32], OrderState)) -> bool,
)
    requires
        forall|i: int, j: int|
            0 <= i < j < orders.len() ==> (#[trigger] orders[i]).0 != (#[trigger] orders[j]).0,
    ensures
        forall|i: int, j: int|
            0 <= i < j < orders.filter(pick).len() ==> (#[trigger] orders.filter(pick)[i]).0 != (
            #[trigger] orders.filter(pick)[j]).0,
        forall|k: int|
            0 <= k < orders.filter(pick).len() ==> orders.contains(
                #[trigger] orders.filter(pick)[k],
            ) && pick(orders.filter(pick)[k]),
    decreases orders.len(),
{
    reveal(Seq::filter);
    if orders.len() > 0 {
        let rest = orders.drop_last();
        let last = orders.last();
        assert forall|a: int| 0 <= a < rest.len() implies #[trigger] rest[a] == orders[a] by {}
        assert forall|a: int, b: int| 0 <= a < b < rest.len() implies (#[trigger] rest[a]).0 != (
        #[trigger] rest[b]).0 by {
            assert(rest[a] == orders[a] && rest[b] == orders[b]);
        }
        lemma_filter_keeps_ids(rest, pick);
        let part = rest.filter(pick);
        let whole = orders.filter(pick);
        assert forall|k: int| 0 <= k < part.len() implies orders.contains(#[trigger] part[k]) by {
            assert(rest.contains(part[k]));
            let q = choose|q: int| 0 <= q < rest.len() && rest[q] == part[k];
            assert(orders[q] == part[k]);
        }
        if pick(last) {
            assert(whole == part.push(last));
            assert(orders[orders.len() - 1] == last);
            assert forall|k: int| 0 <= k < whole.len() implies orders.contains(
                #[trigger] whole[k],
            ) && pick(whole[k]) by {
                if k < part.len() {
                    assert(whole[k] == part[k]);
                }
            }
            assert forall|a: int, b: int| 0 <= a < b < whole.len() implies (
            #[trigger] whole[a]).0 != (#[trigger] whole[b]).0 by {
                assert(whole[a] == part[a]);
                if b < part.len() {
                    assert(whole[b] == part[b]);
                } else {
                    assert(rest.contains(part[a]));
                    let q = choose|q: int| 0 <= q < rest.len() && rest[q] == part[a];
                    assert(orders[q] == whole[a]);
                    assert(whole[b] == orders[orders.len() - 1]);
                }
            }
        } else {
            assert(whole == part);
        }
    }
}

proof fn lemma_sweep_keeps_apart(p: Progress, now: u64)
    requires
        ids_apart(p),
    ensures
        ids_apart(sweep(p, now)),
{
    let orders = p.state.orders;
    let pending = p.state.pending_actions;
    let live = orders.filter(is_live_at(now));
    let dead = orders.filter(is_expired_at(now));
    let closed = p.closed + dead;
    lemma_filter_keeps_ids(orders, is_live_at(now));
    lemma_filter_keeps_ids(orders, is_expired_at(now));
    assert forall|a: int, b: int| 0 <= a < live.len() && 0 <= b < pending.len() implies (
    #[trigger] live[a]).0 != (#[trigger] pending[b]).1 by {
        assert(orders.contains(live[a]));
        let q = choose|q: int| 0 <= q < orders.len() && orders[q] == live[a];
        assert(orders[q].0 != pending[b].1);
    }
    assert forall|a: int, b: int| 0 <= a < closed.len() && 0 <= b < live.len() implies (
    #[trigger] closed[a]).0 != (#[trigger] live[b]).0 by {
        assert(orders.contains(live[b]));
        let y = choose|y: int| 0 <= y < orders.len() && orders[y] == live[b];
        if a < p.closed.len() {
            assert(closed[a] == p.closed[a]);
            assert(p.closed[a].0 != orders[y].0);
        } else {
            let d = dead[a - p.closed.len()];
            assert(closed[a] == d);
            assert(orders.contains(d));
            let x = choose|x: int| 0 <= x < orders.len() && orders[x] == d;
            assert(is_expired_at(now)(d) && is_live_at(now)(live[b]));
            assert(x != y);
            if x < y {
                assert(orders[x].0 != orders[y].0);
            } else {
                assert(orders[y].0 != orders[x].0);
            }
        }
    }
    assert forall|a: int, b: int| 0 <= a < closed.len() && 0 <= b < pending.len() implies (
    #[trigger] closed[a]).0 != (#[trigger] pending[b]).1 by {
        if a < p.closed.len() {
            assert(closed[a] == p.closed[a]);
        } else {
            let d = dead[a - p.closed.len()];
            assert(closed[a] == d);
            assert(orders.contains(d));
            let x = choose|x: int| 0 <= x < orders.len() && orders[x] == d;
            assert(orders[x].0 != pending[b].1);
        }
    }
}

proof fn lemma_credit_keeps_apart(p: Progress, transfer: UsdtTransfer)
    requires
        ids_apart(p),
        credit(p, transfer) is Ok,
    ensures
        ids_apart(credit(p, transfer)->Ok_0),
{
    lemma_order_for(p.state.orders, transfer.to, 0);
    match order_for(p.state.orders, transfer.to, 0) {
        None => {},
        Some(i) => {
            let id = p.state.orders[i].0;
            let order = p.state.orders[i].1;
            if transfer.value >= order.min_deposit {
                let paid = OrderState { inflow: (order.inflow + transfer.value) as u64, ..order };
                if paid.inflow >= paid.size {
                    lemma_close_keeps_apart(p, i, (id, paid));
                } else {
                    let orders = p.state.orders;
                    let after = orders.update(i, (id, paid));
                    assert forall|a: int| 0 <= a < after.len() implies (#[trigger] after[a]).0
                        == orders[a].0 by {}
                    assert forall|a: int, b: int| 0 <= a < b < after.len() implies (
                    #[trigger] after[a]).0 != (#[trigger] after[b]).0 by {
                        assert(after[a].0 == orders[a].0 && after[b].0 == orders[b].0);
                    }
                    assert forall|a: int, b: int|
                        0 <= a < after.len() && 0 <= b < p.state.pending_actions.len() implies (
                    #[trigger] after[a]).0 != (#[trigger] p.state.pending_actions[b]).1 by {
                        assert(after[a].0 == orders[a].0);
                    }
                    assert forall|a: int, b: int|
                        0 <= a < p.closed.len() && 0 <= b < after.len() implies (
                    #[trigger] p.closed[a]).0 != (#[trigger] after[b]).0 by {
                        assert(after[b].0 == orders[b].0);
                    }
                }
            }
        },
    }
}

proof fn lemma_apply_tx_keeps_apart(p: Progress, tx: Seq<u8>)
    requires
        ids_apart(p),
        apply_tx(p, tx) is Ok,
    ensures
        ids_apart(apply_tx(p, tx)->Ok_0),
{
    match transfer_of(tx) {
        Err(e) => {},
        Ok(Some(transfer)) => {
            lemma_credit_keeps_apart(p, transfer);
        },
        Ok(None) => {},
    }
}

proof fn lemma_apply_txs_keeps_apart(p: Progress, txs: Seq<Vec<u8>>, from: int)
    requires
        0 <= from,
        ids_apart(p),
        apply_txs(p, txs, from) is Ok,
    ensures
        ids_apart(apply_txs(p, txs, from)->Ok_0),
    decreases txs.len() - from,
{
    if from < txs.len() {
        lemma_apply_tx_keeps_apart(p, txs[from]@);
        lemma_apply_txs_keeps_apart(apply_tx(p, txs[from]@)->Ok_0, txs, from + 1);
    }
}

proof fn lemma_content_keeps_apart(p: Progress, header: BlockHeader, txs: Seq<Vec<u8>>)
    requires
        ids_apart(p),
        content(p, header, txs) is Ok,
    ensures
        ids_apart(content(p, header, txs)->Ok_0),
{
    reveal(content);
    let at_block = Progress {
        state: StateView {
            latest_block_id: header.new_block_id,
            latest_timestamp: header.timestamp,
            ..p.state
        },
        closed: p.closed,
    };
    lemma_promote_keeps_apart(at_block, header.timestamp);
    let promoted = promote(at_block, header.timestamp)->Ok_0;
    lemma_sweep_keeps_apart(promoted, header.timestamp);
    lemma_apply_txs_keeps_apart(sweep(promoted, header.timestamp), txs, 0);
}

proof fn lemma_process_block_keeps_apart(
    p: Progress,
    tip: [u8; 32],
    block: RawBlock,
    is_final: bool,
)
    requires
        ids_apart(p),
        process_block(p, tip, block, is_final) is Ok,
    ensures
        ids_apart(process_block(p, tip, block, is_final)->Ok_0.0),
{
    reveal(process_block);
    let checked = consensus(p.state, tip, block)->Ok_0;
    if is_final {
        lemma_content_keeps_apart(
            Progress { state: checked.0, closed: p.closed },
            checked.1,
            block.txs@,
        );
    }
}

proof fn lemma_process_blocks_keeps_apart(
    p: Progress,
    tip: [u8; 32],
    blocks: Seq<RawBlock>,
    from: int,
)
    requires
        0 <= from,
        ids_apart(p),
        process_blocks(p, tip, blocks, from) is Ok,
    ensures
        ids_apart(process_blocks(p, tip, blocks, from)->Ok_0),
    decreases blocks.len() - from,
{
    if from < blocks.len() {
        let is_final = blocks.len() - from > 19;
        lemma_process_block_keeps_apart(p, tip, blocks[from], is_final);
        let step = process_block(p, tip, blocks[from], is_final)->Ok_0;
        lemma_process_blocks_keeps_apart(step.0, step.1, blocks, from + 1);
    }
}

/// No order that a transition returns as closed is still active after it.
///
/// This holds where the identifiers in play differ from one another: those
/// of the active orders and of the pending actions, the new actions
/// included.
pub proof fn lemma_closed_orders_are_gone(
    s: StateView,
    actions: Seq<Action>,
    blocks: Seq<RawBlock>,
)
    requires
        transition(s, actions, blocks) is Ok,
        ids_apart(Progress { state: ingest(s, actions, 0)->Ok_0, closed: Seq::empty() }),
    ensures
        closed_are_gone(transition(s, actions, blocks)->Ok_0),
{
    let taken = ingest(s, actions, 0)->Ok_0;
    lemma_process_blocks_keeps_apart(
        Progress { state: taken, closed: Seq::empty() },
        taken.latest_block_id,
        blocks,
        0,
    );
}

} // verus!
