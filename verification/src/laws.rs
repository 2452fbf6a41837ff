//! The engine's global guarantees, stated and proved over the book model.

use vstd::prelude::*;

use crate::book::fills;
use crate::book::fills_total;
use crate::book::lemma_fills_fifo;
use crate::book::lemma_match_side_props;
use crate::book::match_fills;
use crate::book::opposite;
use crate::book::side_after_match;
use crate::book::side_wf;
use crate::book::taker_rem;
use crate::book::total_quantity;
use crate::book::trade_events;
use crate::book::trade_of;
use crate::book::OrderBook;
use crate::book::SideView;
use crate::engine::is_depth_of;
use crate::engine::BookDepth;
use crate::types::Order;
use crate::types::Price;
use crate::types::TradeEvent;
use crate::types::TradeSide;

verus! {

/// The id a trade event carries; zero for the other event kinds.
pub open spec fn event_trade_id(e: TradeEvent) -> u64 {
    match e {
        TradeEvent::OrderTraded(tr) => tr.trade_id.0,
        _ => 0,
    }
}

/// Conservation: in any matching pass, the quantity consumed from the
/// opposing side across all trades plus the quantity left over for the
/// taker equals the incoming quantity — and the opposing side's total
/// resting quantity shrinks by exactly what was traded.
pub proof fn lemma_conservation(s: SideView, taker_side: TradeSide, limit: Price, t: u64)
    requires
        side_wf(s, opposite(taker_side)),
    ensures
        fills_total(match_fills(s, taker_side, limit, t)) + taker_rem(s, taker_side, limit, t)
            == t,
        total_quantity(side_after_match(s, taker_side, limit, t)) == total_quantity(s)
            - fills_total(match_fills(s, taker_side, limit, t)),
{
    lemma_match_side_props(s, taker_side, limit, t);
}

/// Conservation at the book: for a `process_order` call on a well-formed
/// book, the trades it reports and the remainder it rests (zero when fully
/// filled) account exactly for the incoming order's quantity.
pub proof fn lemma_process_order_conservation(b: OrderBook, order: Order)
    requires
        b.wf(),
    ensures
        fills_total(
            match_fills(
                b.opp_side_view(order.trade_side),
                order.trade_side,
                order.price,
                order.trade_quantity,
            ),
        ) + taker_rem(
            b.opp_side_view(order.trade_side),
            order.trade_side,
            order.price,
            order.trade_quantity,
        ) == order.trade_quantity,
{
    lemma_conservation(
        b.opp_side_view(order.trade_side),
        order.trade_side,
        order.price,
        order.trade_quantity,
    );
}

/// Price-time priority within a level: executions consume the resting
/// orders strictly in arrival order — execution `j` is against order `j`
/// of the queue, and every order before the last one touched is taken for
/// its full remaining quantity before the next is touched at all.
pub proof fn lemma_price_time_priority(q: Seq<Order>, t: u64)
    ensures
        fills(q, t).len() <= q.len(),
        forall|j: int| 0 <= j < fills(q, t).len() ==> (#[trigger] fills(q, t)[j]).0 == q[j],
        forall|j: int|
            0 <= j < fills(q, t).len() - 1 ==> (#[trigger] fills(q, t)[j]).1
                == q[j].trade_quantity,
{
    lemma_fills_fifo(q, t);
}

/// No crossed book: in a well-formed book with both sides non-empty, the
/// best bid price is strictly below the best ask price. Every operation of
/// the engine keeps the book well formed, so this holds after any sequence
/// of operations.
pub proof fn lemma_no_cross(b: OrderBook)
    requires
        b.wf(),
        b.bids@.len() > 0,
        b.ask@.len() > 0,
    ensures
        b.bids_view()[0].0 < b.asks_view()[0].0,
{
}

/// Trade-id monotonicity within one command: the trades a matching pass
/// emits carry consecutive ids continuing directly above the book's
/// counter, so they are strictly increasing with no repeats.
pub proof fn lemma_trade_ids_one_command(fs: Seq<(Order, u64)>, taker: Order, id0: u64)
    requires
        id0 + fs.len() <= u64::MAX,
    ensures
        forall|j: int|
            0 <= j < fs.len() ==> event_trade_id(#[trigger] trade_events(fs, taker, id0)[j]) == id0
                + 1 + j,
        forall|j1: int, j2: int|
            0 <= j1 < j2 < fs.len() ==> event_trade_id(trade_events(fs, taker, id0)[j1])
                < event_trade_id(trade_events(fs, taker, id0)[j2]),
{
    assert forall|j: int| 0 <= j < fs.len() implies event_trade_id(
        #[trigger] trade_events(fs, taker, id0)[j],
    ) == id0 + 1 + j by {
        assert(trade_events(fs, taker, id0)[j] == TradeEvent::OrderTraded(
            trade_of(fs[j].0, fs[j].1, taker, (id0 + 1 + j) as u64),
        ));
    }
}

/// Trade-id monotonicity across commands: when a later command starts at a
/// counter no lower than where an earlier one stopped, every id of the
/// later command is strictly above every id of the earlier one — so over
/// the lifetime of a book the ids of all trades ever executed form a
/// strictly increasing sequence.
pub proof fn lemma_trade_ids_across_commands(
    fs1: Seq<(Order, u64)>,
    taker1: Order,
    id0: u64,
    fs2: Seq<(Order, u64)>,
    taker2: Order,
    id1: u64,
)
    requires
        id0 + fs1.len() <= id1,
        id1 + fs2.len() <= u64::MAX,
    ensures
        forall|j1: int, j2: int|
            0 <= j1 < fs1.len() && 0 <= j2 < fs2.len() ==> event_trade_id(
                trade_events(fs1, taker1, id0)[j1],
            ) < event_trade_id(trade_events(fs2, taker2, id1)[j2]),
{
    lemma_trade_ids_one_command(fs1, taker1, id0);
    lemma_trade_ids_one_command(fs2, taker2, id1);
}

/// Idempotent depth: two depth reports of the same book state are
/// identical — the snapshot is a function of the book state alone, so two
/// consecutive calls with no intervening mutation return the same result.
pub proof fn lemma_depth_idempotent(b: OrderBook, d1: BookDepth, d2: BookDepth)
    requires
        is_depth_of(b, d1),
        is_depth_of(b, d2),
    ensures
        d1.bids@ == d2.bids@,
        d1.asks@ == d2.asks@,
{
    assert(d1.bids@ =~= d2.bids@);
    assert(d1.asks@ =~= d2.asks@);
}

} // verus!
