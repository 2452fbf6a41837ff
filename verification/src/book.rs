//! The order-book index and its mathematical model.
//!
//! A side is a vector of price levels, each a FIFO queue of resting orders
//! sharing one price. Bids are kept in strictly descending price order,
//! asks strictly ascending, so the best level of either side is level 0.
//!
//! Contracts speak about [`SideView`], the abstract form of a side: a
//! sequence of `(price, queue)` pairs. The spec functions below define, as
//! plain recursive mathematics, everything the engine does to a side:
//! filling a queue front-first, matching across levels, placing a remainder
//! and removing an order by id.

use vstd::prelude::*;

use crate::levels::find_price_index;
use crate::levels::lemma_find_price_index_is;
use crate::types::Order;
use crate::types::Price;
use crate::types::Quantity;
use crate::types::Trade;
use crate::types::TradeEvent;
use crate::types::TradeID;
use crate::types::TradeSide;

verus! {

/// One FIFO queue of resting orders at a single price.
pub type PriceLevel = Vec<Order>;

/// The abstract form of one side of the book.
pub type SideView = Seq<(Price, Seq<Order>)>;

/// The book: bid levels (price descending), ask levels (price ascending)
/// and the counter from which trade ids are drawn.
pub struct OrderBook {
    pub bids: Vec<(Price, PriceLevel)>,
    pub ask: Vec<(Price, PriceLevel)>,
    pub next_trade_id: u64,
}

/// The abstract form of a stored side.
pub open spec fn side_view(s: Seq<(Price, PriceLevel)>) -> SideView {
    s.map_values(|l: (Price, PriceLevel)| (l.0, l.1@))
}

/// The side opposing `side`.
pub open spec fn opposite(side: TradeSide) -> TradeSide {
    match side {
        TradeSide::Buy => TradeSide::Sell,
        TradeSide::Sell => TradeSide::Buy,
    }
}

/// Whether price `a` is strictly better than `b` for a resting order of
/// `side`: higher for bids, lower for asks.
pub open spec fn price_better(side: TradeSide, a: Price, b: Price) -> bool {
    match side {
        TradeSide::Buy => a > b,
        TradeSide::Sell => a < b,
    }
}

/// Whether a taker of `taker_side` with limit `limit` crosses a resting
/// level at `level_price`.
pub open spec fn crosses(taker_side: TradeSide, level_price: Price, limit: Price) -> bool {
    match taker_side {
        TradeSide::Buy => level_price <= limit,
        TradeSide::Sell => level_price >= limit,
    }
}

/// A resting order as a level of `side` at `price` may hold it: matching
/// price and side, and unfilled quantity left.
pub open spec fn order_at(o: Order, price: Price, side: TradeSide) -> bool {
    o.price == price && o.trade_side == side && o.trade_quantity > 0
}

/// Total quantity resting in a queue.
pub open spec fn sum_qty(q: Seq<Order>) -> int
    decreases q.len(),
{
    if q.len() == 0 {
        0
    } else {
        q[0].trade_quantity + sum_qty(q.skip(1))
    }
}

/// A well-formed price level: non-empty, positive price, its total within
/// machine range, every order at this price and side with quantity left.
pub open spec fn level_wf(l: (Price, Seq<Order>), side: TradeSide) -> bool {
    &&& l.1.len() > 0
    &&& l.0 > 0
    &&& sum_qty(l.1) <= u64::MAX
    &&& forall|k: int| 0 <= k < l.1.len() ==> order_at(#[trigger] l.1[k], l.0, side)
}

/// A well-formed side: strictly ordered best-first, every level well
/// formed.
pub open spec fn side_wf(s: SideView, side: TradeSide) -> bool {
    &&& forall|i: int, j: int|
        0 <= i < j < s.len() ==> price_better(side, (#[trigger] s[i]).0, (#[trigger] s[j]).0)
    &&& forall|i: int| 0 <= i < s.len() ==> level_wf(#[trigger] s[i], side)
}

/// The executions a taker with `t` left produces against a queue: each pair
/// is the maker as it rested and the quantity traded, oldest maker first.
pub open spec fn fills(q: Seq<Order>, t: u64) -> Seq<(Order, u64)>
    decreases q.len(),
{
    if t == 0 || q.len() == 0 {
        Seq::empty()
    } else if t < q[0].trade_quantity {
        seq![(q[0], t)]
    } else {
        seq![(q[0], q[0].trade_quantity)] + fills(q.skip(1), (t - q[0].trade_quantity) as u64)
    }
}

/// The queue left behind by those executions: fully filled makers are
/// removed from the front, a partially filled head keeps its place with its
/// quantity reduced.
pub open spec fn queue_after(q: Seq<Order>, t: u64) -> Seq<Order>
    decreases q.len(),
{
    if t == 0 || q.len() == 0 {
        q
    } else if t < q[0].trade_quantity {
        q.update(0, Order { trade_quantity: (q[0].trade_quantity - t) as u64, ..q[0] })
    } else {
        queue_after(q.skip(1), (t - q[0].trade_quantity) as u64)
    }
}

/// What remains of the taker after those executions.
pub open spec fn rem_after(q: Seq<Order>, t: u64) -> u64
    decreases q.len(),
{
    if t == 0 || q.len() == 0 {
        t
    } else if t < q[0].trade_quantity {
        0
    } else {
        rem_after(q.skip(1), (t - q[0].trade_quantity) as u64)
    }
}

/// The opposing side after a taker of `taker_side`, limit `limit` and
/// quantity `t` has matched against it: best levels are consumed in order
/// while they cross, an emptied level is dropped, a partially consumed one
/// keeps its place.
pub open spec fn side_after_match(s: SideView, taker_side: TradeSide, limit: Price, t: u64) -> SideView
    decreases s.len(),
{
    if t == 0 || s.len() == 0 || !crosses(taker_side, s[0].0, limit) {
        s
    } else {
        let q2 = queue_after(s[0].1, t);
        let t2 = rem_after(s[0].1, t);
        if q2.len() == 0 {
            side_after_match(s.skip(1), taker_side, limit, t2)
        } else {
            seq![(s[0].0, q2)] + s.skip(1)
        }
    }
}

/// The executions of that match, in the order they happen.
pub open spec fn match_fills(s: SideView, taker_side: TradeSide, limit: Price, t: u64) -> Seq<
    (Order, u64),
>
    decreases s.len(),
{
    if t == 0 || s.len() == 0 || !crosses(taker_side, s[0].0, limit) {
        Seq::empty()
    } else {
        let f = fills(s[0].1, t);
        let q2 = queue_after(s[0].1, t);
        let t2 = rem_after(s[0].1, t);
        if q2.len() == 0 {
            f + match_fills(s.skip(1), taker_side, limit, t2)
        } else {
            f
        }
    }
}

/// What remains of the taker after that match.
pub open spec fn taker_rem(s: SideView, taker_side: TradeSide, limit: Price, t: u64) -> u64
    decreases s.len(),
{
    if t == 0 || s.len() == 0 || !crosses(taker_side, s[0].0, limit) {
        t
    } else {
        let q2 = queue_after(s[0].1, t);
        let t2 = rem_after(s[0].1, t);
        if q2.len() == 0 {
            taker_rem(s.skip(1), taker_side, limit, t2)
        } else {
            t2
        }
    }
}

/// Position at which a resting order of `side` at price `p` enters the
/// side: before every strictly worse level, after every strictly better or
/// equal one.
pub open spec fn insert_pos(side: TradeSide, s: SideView, p: Price) -> int
    decreases s.len(),
{
    if s.len() == 0 {
        0
    } else if !price_better(side, s[0].0, p) {
        0
    } else {
        1 + insert_pos(side, s.skip(1), p)
    }
}

/// The side after a remainder rests on it: appended to the tail of its
/// price's queue, or a fresh one-order level at its sorted position.
pub open spec fn side_place(side: TradeSide, s: SideView, o: Order) -> SideView {
    let k = insert_pos(side, s, o.price);
    if k < s.len() && s[k].0 == o.price {
        s.update(k, (s[k].0, s[k].1.push(o)))
    } else {
        s.insert(k, (o.price, seq![o]))
    }
}

/// Index of the first order with the given id in a queue, or `-1`.
pub open spec fn queue_find_id(q: Seq<Order>, order_id: u64) -> int
    decreases q.len(),
{
    if q.len() == 0 {
        -1
    } else if q[0].order_id == order_id {
        0
    } else {
        let r = queue_find_id(q.skip(1), order_id);
        if r < 0 {
            -1
        } else {
            r + 1
        }
    }
}

/// Index of the first level holding the given id, or `-1`.
pub open spec fn side_find_id(s: SideView, order_id: u64) -> int
    decreases s.len(),
{
    if s.len() == 0 {
        -1
    } else if queue_find_id(s[0].1, order_id) != -1 {
        0
    } else {
        let r = side_find_id(s.skip(1), order_id);
        if r < 0 {
            -1
        } else {
            r + 1
        }
    }
}

/// The order that a removal by id takes out of the side. Only meaningful
/// when [`side_find_id`] finds one.
pub open spec fn side_removed_order(s: SideView, order_id: u64) -> Order {
    let k = side_find_id(s, order_id);
    s[k].1[queue_find_id(s[k].1, order_id)]
}

/// The side after removing the first order with the given id; the level is
/// dropped when that empties it. Without the id the side is unchanged.
pub open spec fn side_remove_id(s: SideView, order_id: u64) -> SideView {
    let k = side_find_id(s, order_id);
    if k == -1 {
        s
    } else {
        let j = queue_find_id(s[k].1, order_id);
        let q2 = s[k].1.remove(j);
        if q2.len() == 0 {
            s.remove(k)
        } else {
            s.update(k, (s[k].0, q2))
        }
    }
}

/// Total number of orders resting on a side.
pub open spec fn total_orders(s: SideView) -> int
    decreases s.len(),
{
    if s.len() == 0 {
        0
    } else {
        s[0].1.len() + total_orders(s.skip(1))
    }
}

/// Total quantity resting on a side.
pub open spec fn total_quantity(s: SideView) -> int
    decreases s.len(),
{
    if s.len() == 0 {
        0
    } else {
        sum_qty(s[0].1) + total_quantity(s.skip(1))
    }
}

/// Sum of the traded quantities of a run of executions.
pub open spec fn fills_total(fs: Seq<(Order, u64)>) -> int
    decreases fs.len(),
{
    if fs.len() == 0 {
        0
    } else {
        fs[0].1 + fills_total(fs.skip(1))
    }
}

/// The trade record one execution produces: the maker's resting price, the
/// taker's timestamp and market.
pub open spec fn trade_of(maker: Order, qty: u64, taker: Order, trade_id: u64) -> Trade {
    Trade {
        trade_id: TradeID(trade_id),
        market_id: taker.market_id,
        maker_order_id: maker.order_id,
        taker_order_id: taker.order_id,
        maker_user_id: maker.trader_id,
        taker_user_id: taker.trader_id,
        quantity: qty,
        price: maker.price,
        timestamp: taker.timestamp,
    }
}

/// The events of a run of executions, with ids drawn consecutively above
/// `id0`: execution `j` gets id `id0 + 1 + j`.
pub open spec fn trade_events(fs: Seq<(Order, u64)>, taker: Order, id0: u64) -> Seq<TradeEvent> {
    Seq::new(
        fs.len(),
        |j: int| TradeEvent::OrderTraded(trade_of(fs[j].0, fs[j].1, taker, (id0 + 1 + j) as u64)),
    )
}

/// The placement event a resting remainder produces.
pub open spec fn placed_event(o: Order) -> TradeEvent {
    TradeEvent::OrderPlaced {
        order_id: o.order_id,
        trader_id: o.trader_id,
        market_id: o.market_id,
        side: o.trade_side,
        price: o.price,
        quantity: o.trade_quantity,
        order_type: o.order_type,
        timestamp: o.timestamp,
    }
}

/// A queue total is never negative.
pub proof fn lemma_sum_qty_nonneg(q: Seq<Order>)
    ensures
        sum_qty(q) >= 0,
    decreases q.len(),
{
    if q.len() > 0 {
        lemma_sum_qty_nonneg(q.skip(1));
    }
}

/// Appending an order adds its quantity to the queue total.
pub proof fn lemma_sum_qty_push(q: Seq<Order>, o: Order)
    ensures
        sum_qty(q.push(o)) == sum_qty(q) + o.trade_quantity,
    decreases q.len(),
{
    if q.len() == 0 {
        assert(q.push(o)[0] == o);
        assert(q.push(o).skip(1) =~= Seq::<Order>::empty());
        assert(sum_qty(q.push(o).skip(1)) == 0);
    } else {
        assert(q.push(o)[0] == q[0]);
        assert(q.push(o).skip(1) =~= q.skip(1).push(o));
        lemma_sum_qty_push(q.skip(1), o);
    }
}

/// Removing an order subtracts its quantity from the queue total.
pub proof fn lemma_sum_qty_remove(q: Seq<Order>, j: int)
    requires
        0 <= j < q.len(),
    ensures
        sum_qty(q.remove(j)) == sum_qty(q) - q[j].trade_quantity,
    decreases q.len(),
{
    q.remove_ensures(j);
    if j == 0 {
        assert(q.remove(0) =~= q.skip(1));
    } else {
        assert(q.remove(j)[0] == q[0]);
        assert(q.remove(j).skip(1) =~= q.skip(1).remove(j - 1));
        lemma_sum_qty_remove(q.skip(1), j - 1);
    }
}

/// A queue total splits at any point: total of the part done so far plus
/// total of the rest.
pub proof fn lemma_sum_qty_skip_unfold(q: Seq<Order>, i: int)
    requires
        0 <= i < q.len(),
    ensures
        sum_qty(q.skip(i)) == q[i].trade_quantity + sum_qty(q.skip(i + 1)),
{
    assert(q.skip(i).len() > 0);
    assert(q.skip(i)[0] == q[i]);
    assert(q.skip(i).skip(1) =~= q.skip(i + 1));
}

/// Totals of runs of executions add up under concatenation.
pub proof fn lemma_fills_total_concat(a: Seq<(Order, u64)>, b: Seq<(Order, u64)>)
    ensures
        fills_total(a + b) == fills_total(a) + fills_total(b),
    decreases a.len(),
{
    if a.len() == 0 {
        assert(a + b =~= b);
    } else {
        assert((a + b)[0] == a[0]);
        assert((a + b).skip(1) =~= a.skip(1) + b);
        lemma_fills_total_concat(a.skip(1), b);
    }
}

/// No side holds a negative number of orders.
pub proof fn lemma_total_orders_nonneg(s: SideView)
    ensures
        total_orders(s) >= 0,
    decreases s.len(),
{
    if s.len() > 0 {
        lemma_total_orders_nonneg(s.skip(1));
    }
}

/// Filling a queue front-first: what it consumes, what it leaves, and that
/// what it leaves is still a queue of the same price and side.
pub proof fn lemma_queue_fill_props(q: Seq<Order>, t: u64, price: Price, side: TradeSide)
    requires
        forall|k: int| 0 <= k < q.len() ==> order_at(#[trigger] q[k], price, side),
    ensures
        queue_after(q, t).len() <= q.len(),
        forall|k: int|
            0 <= k < queue_after(q, t).len() ==> order_at(
                #[trigger] queue_after(q, t)[k],
                price,
                side,
            ),
        sum_qty(queue_after(q, t)) == sum_qty(q) - fills_total(fills(q, t)),
        fills_total(fills(q, t)) + rem_after(q, t) == t,
        rem_after(q, t) <= t,
        queue_after(q, t).len() > 0 ==> rem_after(q, t) == 0,
        fills(q, t).len() <= q.len(),
    decreases q.len(),
{
    if t == 0 || q.len() == 0 {
    } else if t < q[0].trade_quantity {
        let qa = queue_after(q, t);
        let f = fills(q, t);
        assert(qa.skip(1) =~= q.skip(1));
        assert(f == seq![(q[0], t)]);
        assert(f.len() == 1);
        assert(f[0] == (q[0], t));
        assert(f.skip(1) =~= Seq::<(Order, u64)>::empty());
        assert(fills_total(f.skip(1)) == 0);
        assert(fills_total(f) == t);
    } else {
        let t2 = (t - q[0].trade_quantity) as u64;
        assert forall|k: int| 0 <= k < q.skip(1).len() implies order_at(
            #[trigger] q.skip(1)[k],
            price,
            side,
        ) by {
            assert(q.skip(1)[k] == q[k + 1]);
        }
        lemma_queue_fill_props(q.skip(1), t2, price, side);
        let f = fills(q, t);
        assert(f[0] == (q[0], q[0].trade_quantity));
        assert(f.skip(1) =~= fills(q.skip(1), t2));
    }
}

/// Price-time priority within one level: executions walk the queue in
/// arrival order, and a later maker is never touched before every earlier
/// one is exhausted.
pub proof fn lemma_fills_fifo(q: Seq<Order>, t: u64)
    ensures
        fills(q, t).len() <= q.len(),
        forall|j: int| 0 <= j < fills(q, t).len() ==> (#[trigger] fills(q, t)[j]).0 == q[j],
        forall|j: int|
            0 <= j < fills(q, t).len() - 1 ==> (#[trigger] fills(q, t)[j]).1
                == q[j].trade_quantity,
    decreases q.len(),
{
    if t == 0 || q.len() == 0 {
    } else if t < q[0].trade_quantity {
        let f = fills(q, t);
        assert(f[0] == (q[0], t));
    } else {
        let t2 = (t - q[0].trade_quantity) as u64;
        lemma_fills_fifo(q.skip(1), t2);
        let f = fills(q, t);
        assert(f[0] == (q[0], q[0].trade_quantity));
        assert(f.skip(1) =~= fills(q.skip(1), t2));
        assert forall|j: int| 0 <= j < f.len() implies (#[trigger] f[j]).0 == q[j] by {
            if j > 0 {
                assert(f[j] == fills(q.skip(1), t2)[j - 1]);
                assert(q.skip(1)[j - 1] == q[j]);
            }
        }
        assert forall|j: int| 0 <= j < f.len() - 1 implies (#[trigger] f[j]).1
            == q[j].trade_quantity by {
            if j > 0 {
                assert(f[j] == fills(q.skip(1), t2)[j - 1]);
                assert(q.skip(1)[j - 1] == q[j]);
            }
        }
    }
}

/// Matching against a side: the result is still a well-formed side whose
/// best price is no better than before, the taker only rests if nothing
/// left crosses, and quantity is conserved between executions, the taker
/// and the side.
pub proof fn lemma_match_side_props(s: SideView, taker_side: TradeSide, limit: Price, t: u64)
    requires
        side_wf(s, opposite(taker_side)),
    ensures
        side_wf(side_after_match(s, taker_side, limit, t), opposite(taker_side)),
        side_after_match(s, taker_side, limit, t).len() <= s.len(),
        s.len() > 0 && side_after_match(s, taker_side, limit, t).len() > 0 ==> !price_better(
            opposite(taker_side),
            side_after_match(s, taker_side, limit, t)[0].0,
            s[0].0,
        ),
        taker_rem(s, taker_side, limit, t) > 0 ==> (side_after_match(s, taker_side, limit, t).len()
            == 0 || !crosses(taker_side, side_after_match(s, taker_side, limit, t)[0].0, limit)),
        taker_rem(s, taker_side, limit, t) <= t,
        fills_total(match_fills(s, taker_side, limit, t)) + taker_rem(s, taker_side, limit, t)
            == t,
        total_quantity(side_after_match(s, taker_side, limit, t)) == total_quantity(s)
            - fills_total(match_fills(s, taker_side, limit, t)),
        match_fills(s, taker_side, limit, t).len() <= total_orders(s),
        total_orders(side_after_match(s, taker_side, limit, t)) <= total_orders(s),
    decreases s.len(),
{
    let rside = opposite(taker_side);
    lemma_total_orders_nonneg(s);
    if t == 0 || s.len() == 0 || !crosses(taker_side, s[0].0, limit) {
        if s.len() > 0 {
            lemma_total_orders_nonneg(s.skip(1));
            lemma_sum_qty_nonneg(s[0].1);
        }
    } else {
        let q = s[0].1;
        let q2 = queue_after(q, t);
        let t2 = rem_after(q, t);
        let f = fills(q, t);
        assert(level_wf(s[0], rside));
        lemma_queue_fill_props(q, t, s[0].0, rside);
        assert forall|i: int, j: int| 0 <= i < j < s.skip(1).len() implies price_better(
            rside,
            (#[trigger] s.skip(1)[i]).0,
            (#[trigger] s.skip(1)[j]).0,
        ) by {
            assert(s.skip(1)[i] == s[i + 1]);
            assert(s.skip(1)[j] == s[j + 1]);
        }
        assert forall|i: int| 0 <= i < s.skip(1).len() implies level_wf(
            #[trigger] s.skip(1)[i],
            rside,
        ) by {
            assert(s.skip(1)[i] == s[i + 1]);
        }
        lemma_total_orders_nonneg(s.skip(1));
        if q2.len() == 0 {
            lemma_match_side_props(s.skip(1), taker_side, limit, t2);
            let after = side_after_match(s, taker_side, limit, t);
            assert(after == side_after_match(s.skip(1), taker_side, limit, t2));
            if after.len() > 0 {
                assert(s.skip(1).len() > 0);
                assert(!price_better(rside, after[0].0, s.skip(1)[0].0));
                assert(price_better(rside, s[0].0, s[1].0));
                assert(s.skip(1)[0] == s[1]);
            }
            assert(match_fills(s, taker_side, limit, t) == f + match_fills(
                s.skip(1),
                taker_side,
                limit,
                t2,
            ));
            lemma_fills_total_concat(f, match_fills(s.skip(1), taker_side, limit, t2));
            assert(sum_qty(q2) == 0);
        } else {
            let after = seq![(s[0].0, q2)] + s.skip(1);
            assert(side_after_match(s, taker_side, limit, t) == after);
            assert(after.len() == s.len());
            assert(after[0] == (s[0].0, q2));
            assert forall|i: int| 1 <= i < after.len() implies after[i] == s[i] by {
                assert(after[i] == s.skip(1)[i - 1]);
            }
            lemma_sum_qty_nonneg(q2);
            assert(fills_total(f) + rem_after(q, t) == t);
            assert(level_wf(after[0], rside));
            assert forall|i: int, j: int| 0 <= i < j < after.len() implies price_better(
                rside,
                (#[trigger] after[i]).0,
                (#[trigger] after[j]).0,
            ) by {
                assert(after[i].0 == s[i].0);
                assert(after[j].0 == s[j].0);
            }
            assert forall|i: int| 0 <= i < after.len() implies level_wf(
                #[trigger] after[i],
                rside,
            ) by {}
            assert(total_quantity(after) == sum_qty(q2) + total_quantity(after.skip(1)));
            assert(after.skip(1) =~= s.skip(1));
        }
    }
}

/// Where a resting order of `side` at price `p` enters: after every
/// strictly better level and before all the rest.
pub proof fn lemma_insert_pos_props(side: TradeSide, s: SideView, p: Price)
    ensures
        0 <= insert_pos(side, s, p) <= s.len(),
        forall|j: int|
            0 <= j < insert_pos(side, s, p) ==> price_better(side, (#[trigger] s[j]).0, p),
        insert_pos(side, s, p) < s.len() ==> !price_better(side, s[insert_pos(side, s, p)].0, p),
    decreases s.len(),
{
    if s.len() > 0 && price_better(side, s[0].0, p) {
        lemma_insert_pos_props(side, s.skip(1), p);
        assert forall|j: int| 0 <= j < insert_pos(side, s, p) implies price_better(
            side,
            (#[trigger] s[j]).0,
            p,
        ) by {
            if j > 0 {
                assert(s.skip(1)[j - 1] == s[j]);
            }
        }
        if insert_pos(side, s, p) < s.len() {
            assert(s.skip(1)[insert_pos(side, s.skip(1), p)] == s[insert_pos(side, s, p)]);
        }
    }
}

/// A scan that saw only strictly better levels before `k`, and at `k` (if
/// any) a level not strictly better, determines [`insert_pos`].
pub proof fn lemma_insert_pos_is(side: TradeSide, s: SideView, p: Price, k: int)
    requires
        0 <= k <= s.len(),
        forall|j: int| 0 <= j < k ==> price_better(side, (#[trigger] s[j]).0, p),
        k < s.len() ==> !price_better(side, s[k].0, p),
    ensures
        insert_pos(side, s, p) == k,
    decreases s.len(),
{
    if s.len() > 0 && k > 0 {
        lemma_insert_pos_is(side, s.skip(1), p, k - 1);
    }
}

/// One more execution extends the event run by one trade under the next
/// id.
pub proof fn lemma_trade_events_push(fs: Seq<(Order, u64)>, x: (Order, u64), taker: Order, id0: u64)
    requires
        id0 + fs.len() + 1 <= u64::MAX,
    ensures
        trade_events(fs.push(x), taker, id0) == trade_events(fs, taker, id0).push(
            TradeEvent::OrderTraded(trade_of(x.0, x.1, taker, (id0 + fs.len() + 1) as u64)),
        ),
{
    let lhs = trade_events(fs.push(x), taker, id0);
    let rhs = trade_events(fs, taker, id0).push(
        TradeEvent::OrderTraded(trade_of(x.0, x.1, taker, (id0 + fs.len() + 1) as u64)),
    );
    assert forall|j: int| 0 <= j < lhs.len() implies lhs[j] == rhs[j] by {
        if j < fs.len() {
            assert(fs.push(x)[j] == fs[j]);
        } else {
            assert(fs.push(x)[j] == x);
        }
    }
    assert(lhs =~= rhs);
}

/// The events of a run of executions do not depend on how much of the
/// taker is left, only on its identity fields.
pub proof fn lemma_trade_events_taker_agnostic(
    fs: Seq<(Order, u64)>,
    tk1: Order,
    tk2: Order,
    id0: u64,
)
    requires
        tk1 == (Order { trade_quantity: tk1.trade_quantity, ..tk2 }),
    ensures
        trade_events(fs, tk1, id0) == trade_events(fs, tk2, id0),
{
    let lhs = trade_events(fs, tk1, id0);
    let rhs = trade_events(fs, tk2, id0);
    assert forall|j: int| 0 <= j < lhs.len() implies lhs[j] == rhs[j] by {}
    assert(lhs =~= rhs);
}

/// Placing a remainder keeps the side well formed; the new best price is
/// the better of the old best and the remainder's price.
#[verifier::rlimit(60)]
pub proof fn lemma_side_place_wf(side: TradeSide, s: SideView, o: Order)
    requires
        side_wf(s, side),
        order_at(o, o.price, side),
        o.price > 0,
        find_price_index(s, o.price) != -1 ==> sum_qty(s[find_price_index(s, o.price)].1)
            + o.trade_quantity <= u64::MAX,
    ensures
        side_wf(side_place(side, s, o), side),
        side_place(side, s, o).len() >= s.len(),
        side_place(side, s, o).len() > 0,
        side_place(side, s, o)[0].0 == if s.len() > 0 && price_better(side, s[0].0, o.price) {
            s[0].0
        } else {
            o.price
        },
{
    let k = insert_pos(side, s, o.price);
    lemma_insert_pos_props(side, s, o.price);
    if k < s.len() && s[k].0 == o.price {
        assert forall|j: int| 0 <= j < k implies (#[trigger] s[j]).0 != o.price by {
            assert(price_better(side, s[j].0, s[k].0));
        }
        lemma_find_price_index_is(s, o.price, k);
        let r = s.update(k, (s[k].0, s[k].1.push(o)));
        lemma_sum_qty_push(s[k].1, o);
        assert(level_wf(r[k], side));
        assert forall|i: int| 0 <= i < r.len() implies level_wf(#[trigger] r[i], side) by {
            if i != k {
                assert(r[i] == s[i]);
            }
        }
        assert forall|i: int, j: int| 0 <= i < j < r.len() implies price_better(
            side,
            (#[trigger] r[i]).0,
            (#[trigger] r[j]).0,
        ) by {
            assert(r[i].0 == s[i].0);
            assert(r[j].0 == s[j].0);
        }
        assert(side_place(side, s, o) == r);
    } else {
        let nl = (o.price, seq![o]);
        let r = s.insert(k, nl);
        s.insert_ensures(k, nl);
        assert(seq![o][0] == o);
        assert(seq![o].skip(1) =~= Seq::<Order>::empty());
        assert(sum_qty(seq![o].skip(1)) == 0);
        assert(sum_qty(seq![o]) == o.trade_quantity);
        assert forall|m: int| 0 <= m < nl.1.len() implies order_at(#[trigger] nl.1[m], nl.0, side) by {
            assert(nl.1[m] == o);
        }
        assert(level_wf(nl, side));
        if k < s.len() {
            assert(s[k].0 != o.price);
            assert(price_better(side, o.price, s[k].0));
        }
        assert forall|i: int| 0 <= i < r.len() implies level_wf(#[trigger] r[i], side) by {
            if i < k {
                assert(r[i] == s[i]);
            } else if i > k {
                assert(r[i] == s[i - 1]);
            }
        }
        assert forall|i: int, j: int| 0 <= i < j < r.len() implies price_better(
            side,
            (#[trigger] r[i]).0,
            (#[trigger] r[j]).0,
        ) by {
            if i < k {
                assert(r[i] == s[i]);
            } else if i > k {
                assert(r[i] == s[i - 1]);
            }
            if j < k {
                assert(r[j] == s[j]);
            } else if j > k {
                assert(r[j] == s[j - 1]);
            }
            if j == k && i < k {
                assert(price_better(side, s[i].0, o.price));
            }
            if i == k && j > k {
                assert(price_better(side, o.price, s[j - 1].0));
            }
        }
        assert(side_place(side, s, o) == r);
    }
}

/// What [`queue_find_id`] returns: the first index with the id, or `-1`
/// when the queue does not hold it.
pub proof fn lemma_queue_find_id(q: Seq<Order>, order_id: u64)
    ensures
        queue_find_id(q, order_id) == -1 ==> forall|j: int|
            0 <= j < q.len() ==> (#[trigger] q[j]).order_id != order_id,
        queue_find_id(q, order_id) != -1 ==> {
            let j = queue_find_id(q, order_id);
            &&& 0 <= j < q.len()
            &&& q[j].order_id == order_id
            &&& forall|m: int| 0 <= m < j ==> (#[trigger] q[m]).order_id != order_id
        },
    decreases q.len(),
{
    if q.len() > 0 && q[0].order_id != order_id {
        lemma_queue_find_id(q.skip(1), order_id);
        assert forall|j: int| 1 <= j < q.len() implies (#[trigger] q[j]) == q.skip(1)[j - 1] by {}
    }
}

/// A scan that saw no hit before `j` and a hit at `j` (or none at all)
/// determines [`queue_find_id`].
pub proof fn lemma_queue_find_id_is(q: Seq<Order>, order_id: u64, j: int)
    requires
        0 <= j <= q.len(),
        forall|m: int| 0 <= m < j ==> (#[trigger] q[m]).order_id != order_id,
        j < q.len() ==> q[j].order_id == order_id,
    ensures
        queue_find_id(q, order_id) == if j == q.len() {
            -1int
        } else {
            j
        },
    decreases q.len(),
{
    if q.len() > 0 && j > 0 {
        lemma_queue_find_id_is(q.skip(1), order_id, j - 1);
    }
}

/// A level scan that saw no hit before `k` and a hit at `k` (or none at
/// all) determines [`side_find_id`].
pub proof fn lemma_side_find_id_is(s: SideView, order_id: u64, k: int)
    requires
        0 <= k <= s.len(),
        forall|i: int| 0 <= i < k ==> queue_find_id((#[trigger] s[i]).1, order_id) == -1,
        k < s.len() ==> queue_find_id(s[k].1, order_id) != -1,
    ensures
        side_find_id(s, order_id) == if k == s.len() {
            -1int
        } else {
            k
        },
    decreases s.len(),
{
    if s.len() > 0 && k > 0 {
        lemma_side_find_id_is(s.skip(1), order_id, k - 1);
    }
}

/// What [`side_find_id`] returns when it finds a level.
pub proof fn lemma_side_find_id(s: SideView, order_id: u64)
    ensures
        side_find_id(s, order_id) != -1 ==> {
            let k = side_find_id(s, order_id);
            &&& 0 <= k < s.len()
            &&& queue_find_id(s[k].1, order_id) != -1
        },
    decreases s.len(),
{
    if s.len() > 0 && queue_find_id(s[0].1, order_id) == -1 {
        lemma_side_find_id(s.skip(1), order_id);
        if side_find_id(s, order_id) != -1 {
            assert(s.skip(1)[side_find_id(s.skip(1), order_id)] == s[side_find_id(s, order_id)]);
        }
    }
}

/// Removing one order by id keeps the side well formed and never improves
/// its best price.
pub proof fn lemma_side_remove_wf(s: SideView, side: TradeSide, order_id: u64)
    requires
        side_wf(s, side),
    ensures
        side_wf(side_remove_id(s, order_id), side),
        side_remove_id(s, order_id).len() <= s.len(),
        side_remove_id(s, order_id).len() > 0 ==> s.len() > 0 && !price_better(
            side,
            side_remove_id(s, order_id)[0].0,
            s[0].0,
        ),
        side_find_id(s, order_id) == -1 ==> side_remove_id(s, order_id) == s,
{
    let k = side_find_id(s, order_id);
    lemma_side_find_id(s, order_id);
    if k != -1 {
        let q = s[k].1;
        let j = queue_find_id(q, order_id);
        lemma_queue_find_id(q, order_id);
        let q2 = q.remove(j);
        q.remove_ensures(j);
        lemma_sum_qty_remove(q, j);
        lemma_sum_qty_nonneg(q2);
        assert forall|m: int| 0 <= m < q2.len() implies order_at(
            #[trigger] q2[m],
            s[k].0,
            side,
        ) by {
            if m < j {
                assert(q2[m] == q[m]);
            } else {
                assert(q2[m] == q[m + 1]);
            }
        }
        if q2.len() == 0 {
            let r = s.remove(k);
            s.remove_ensures(k);
            assert forall|i: int| 0 <= i < r.len() implies level_wf(#[trigger] r[i], side) by {
                if i < k {
                    assert(r[i] == s[i]);
                } else {
                    assert(r[i] == s[i + 1]);
                }
            }
            assert forall|i: int, j2: int| 0 <= i < j2 < r.len() implies price_better(
                side,
                (#[trigger] r[i]).0,
                (#[trigger] r[j2]).0,
            ) by {
                if i < k {
                    assert(r[i] == s[i]);
                } else {
                    assert(r[i] == s[i + 1]);
                }
                if j2 < k {
                    assert(r[j2] == s[j2]);
                } else {
                    assert(r[j2] == s[j2 + 1]);
                }
            }
            assert(side_remove_id(s, order_id) == r);
        } else {
            let r = s.update(k, (s[k].0, q2));
            assert(level_wf(r[k], side));
            assert forall|i: int| 0 <= i < r.len() implies level_wf(#[trigger] r[i], side) by {
                if i != k {
                    assert(r[i] == s[i]);
                }
            }
            assert forall|i: int, j2: int| 0 <= i < j2 < r.len() implies price_better(
                side,
                (#[trigger] r[i]).0,
                (#[trigger] r[j2]).0,
            ) by {
                assert(r[i].0 == s[i].0);
                assert(r[j2].0 == s[j2].0);
            }
            assert(side_remove_id(s, order_id) == r);
        }
    }
}

/// Taking the oldest order off one level keeps the side well formed and
/// never improves its best price.
pub proof fn lemma_side_pop_front_wf(s: SideView, side: TradeSide, k: int)
    requires
        side_wf(s, side),
        0 <= k < s.len(),
    ensures
        s[k].1.len() == 1 ==> side_wf(s.remove(k), side) && (s.remove(k).len() > 0
            ==> !price_better(side, s.remove(k)[0].0, s[0].0)),
        s[k].1.len() > 1 ==> side_wf(s.update(k, (s[k].0, s[k].1.skip(1))), side) && s.update(
            k,
            (s[k].0, s[k].1.skip(1)),
        )[0].0 == s[0].0,
{
    assert(level_wf(s[k], side));
    if s[k].1.len() == 1 {
        let r = s.remove(k);
        s.remove_ensures(k);
        assert forall|i: int| 0 <= i < r.len() implies level_wf(#[trigger] r[i], side) by {
            if i < k {
                assert(r[i] == s[i]);
            } else {
                assert(r[i] == s[i + 1]);
            }
        }
        assert forall|i: int, j: int| 0 <= i < j < r.len() implies price_better(
            side,
            (#[trigger] r[i]).0,
            (#[trigger] r[j]).0,
        ) by {
            if i < k {
                assert(r[i] == s[i]);
            } else {
                assert(r[i] == s[i + 1]);
            }
            if j < k {
                assert(r[j] == s[j]);
            } else {
                assert(r[j] == s[j + 1]);
            }
        }
    } else {
        let q2 = s[k].1.skip(1);
        lemma_sum_qty_skip_unfold(s[k].1, 0);
        assert(s[k].1.skip(0) =~= s[k].1);
        lemma_sum_qty_nonneg(q2);
        assert forall|m: int| 0 <= m < q2.len() implies order_at(#[trigger] q2[m], s[k].0, side) by {
            assert(q2[m] == s[k].1[m + 1]);
        }
        let r = s.update(k, (s[k].0, q2));
        assert(level_wf(r[k], side));
        assert forall|i: int| 0 <= i < r.len() implies level_wf(#[trigger] r[i], side) by {
            if i != k {
                assert(r[i] == s[i]);
            }
        }
        assert forall|i: int, j: int| 0 <= i < j < r.len() implies price_better(
            side,
            (#[trigger] r[i]).0,
            (#[trigger] r[j]).0,
        ) by {
            assert(r[i].0 == s[i].0);
            assert(r[j].0 == s[j].0);
        }
    }
}

/// The events of two consecutive runs of executions, ids drawn in order.
pub proof fn lemma_trade_events_concat(a: Seq<(Order, u64)>, b: Seq<(Order, u64)>, taker: Order, id0: u64)
    requires
        id0 + a.len() + b.len() <= u64::MAX,
    ensures
        trade_events(a + b, taker, id0) == trade_events(a, taker, id0) + trade_events(
            b,
            taker,
            (id0 + a.len()) as u64,
        ),
{
    let lhs = trade_events(a + b, taker, id0);
    let rhs = trade_events(a, taker, id0) + trade_events(b, taker, (id0 + a.len()) as u64);
    assert forall|j: int| 0 <= j < lhs.len() implies lhs[j] == rhs[j] by {
        if j < a.len() {
            assert((a + b)[j] == a[j]);
        } else {
            assert((a + b)[j] == b[j - a.len()]);
        }
    }
    assert(lhs =~= rhs);
}

impl OrderBook {
    /// The abstract bid side.
    pub open spec fn bids_view(self) -> SideView {
        side_view(self.bids@)
    }

    /// The abstract ask side.
    pub open spec fn asks_view(self) -> SideView {
        side_view(self.ask@)
    }

    /// The side an order of `side` rests on.
    pub open spec fn own_side_view(self, side: TradeSide) -> SideView {
        match side {
            TradeSide::Buy => self.bids_view(),
            TradeSide::Sell => self.asks_view(),
        }
    }

    /// The side an order of `side` matches against.
    pub open spec fn opp_side_view(self, side: TradeSide) -> SideView {
        match side {
            TradeSide::Buy => self.asks_view(),
            TradeSide::Sell => self.bids_view(),
        }
    }

    /// Book invariant: both sides well formed and, whenever both are
    /// non-empty, best bid strictly below best ask.
    pub open spec fn wf(self) -> bool {
        &&& side_wf(self.bids_view(), TradeSide::Buy)
        &&& side_wf(self.asks_view(), TradeSide::Sell)
        &&& self.bids@.len() > 0 && self.ask@.len() > 0 ==> self.bids_view()[0].0
            < self.asks_view()[0].0
    }

    /// An empty book.
    pub fn new() -> (r: OrderBook)
        ensures
            r.bids@.len() == 0,
            r.ask@.len() == 0,
            r.next_trade_id == 0,
            r.wf(),
    {
        OrderBook { bids: Vec::new(), ask: Vec::new(), next_trade_id: 0 }
    }

    /// Best (highest) bid price, if any bid rests.
    pub fn best_bid(&self) -> (r: Option<Price>)
        ensures
            r == if self.bids@.len() == 0 {
                Option::<Price>::None
            } else {
                Option::<Price>::Some(self.bids_view()[0].0)
            },
    {
        if self.bids.len() == 0 {
            None
        } else {
            Some(self.bids[0].0)
        }
    }

    /// Best (lowest) ask price, if any ask rests.
    pub fn best_ask(&self) -> (r: Option<Price>)
        ensures
            r == if self.ask@.len() == 0 {
                Option::<Price>::None
            } else {
                Option::<Price>::Some(self.asks_view()[0].0)
            },
    {
        if self.ask.len() == 0 {
            None
        } else {
            Some(self.ask[0].0)
        }
    }
}

} // verus!
