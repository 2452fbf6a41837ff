//! The matching algorithm: the mutating entry point that matches an
//! incoming order against the opposing side, executes fills front-first,
//! rests any remainder and returns the events in the order they happened.

use vstd::prelude::*;

use crate::book::crosses;
use crate::book::fills;
use crate::book::lemma_insert_pos_is;
use crate::book::lemma_match_side_props;
use crate::book::lemma_queue_fill_props;
use crate::book::lemma_queue_find_id_is;
use crate::book::lemma_side_find_id;
use crate::book::lemma_side_find_id_is;
use crate::book::lemma_side_place_wf;
use crate::book::lemma_side_pop_front_wf;
use crate::book::lemma_side_remove_wf;
use crate::book::lemma_sum_qty_nonneg;
use crate::book::lemma_sum_qty_skip_unfold;
use crate::book::lemma_total_orders_nonneg;
use crate::book::lemma_trade_events_concat;
use crate::book::lemma_trade_events_push;
use crate::book::lemma_trade_events_taker_agnostic;
use crate::book::level_wf;
use crate::book::match_fills;
use crate::book::opposite;
use crate::book::order_at;
use crate::book::placed_event;
use crate::book::price_better;
use crate::book::queue_after;
use crate::book::queue_find_id;
use crate::book::rem_after;
use crate::book::side_after_match;
use crate::book::side_find_id;
use crate::book::side_place;
use crate::book::side_remove_id;
use crate::book::side_removed_order;
use crate::book::side_view;
use crate::book::side_wf;
use crate::book::sum_qty;
use crate::book::taker_rem;
use crate::book::total_orders;
use crate::book::trade_events;
use crate::book::trade_of;
use crate::book::OrderBook;
use crate::book::PriceLevel;
use crate::levels::find_price_index;
use crate::levels::lemma_find_price_index_is;
use crate::types::Order;
use crate::types::OrderError;
use crate::types::Price;
use crate::types::Quantity;
use crate::types::Trade;
use crate::types::TradeEvent;
use crate::types::TradeID;
use crate::types::TradeSide;

verus! {

/// One execution pass: fills the taker against the queue's makers oldest
/// first, emitting one trade per maker touched under consecutive ids, and
/// pops every fully filled maker from the front. A partially filled head
/// keeps its place with its quantity reduced.
fn execute_trade(
    taker_order: &mut Order,
    maker_price_level: &mut PriceLevel,
    events: &mut Vec<TradeEvent>,
    next_trade_id: &mut u64,
)
    requires
        forall|k: int|
            0 <= k < old(maker_price_level)@.len() ==> (#[trigger] old(
                maker_price_level,
            )@[k]).trade_quantity > 0,
        *old(next_trade_id) + old(maker_price_level)@.len() <= u64::MAX,
    ensures
        final(maker_price_level)@ == queue_after(
            old(maker_price_level)@,
            old(taker_order).trade_quantity,
        ),
        *final(taker_order) == (Order {
            trade_quantity: rem_after(old(maker_price_level)@, old(taker_order).trade_quantity),
            ..*old(taker_order)
        }),
        *final(next_trade_id) == *old(next_trade_id) + fills(
            old(maker_price_level)@,
            old(taker_order).trade_quantity,
        ).len(),
        final(events)@ == old(events)@ + trade_events(
            fills(old(maker_price_level)@, old(taker_order).trade_quantity),
            *old(taker_order),
            *old(next_trade_id),
        ),
{
    let ghost q0 = maker_price_level@;
    let ghost t0 = taker_order.trade_quantity;
    let ghost id0 = *next_trade_id;
    let ghost ev0 = events@;
    let ghost taker0 = *taker_order;
    let ghost mut done: Seq<(Order, u64)> = Seq::empty();
    proof {
        assert(trade_events(done, taker0, id0) =~= Seq::<TradeEvent>::empty());
        assert(events@ =~= ev0 + trade_events(done, taker0, id0));
    }
    while taker_order.trade_quantity > 0 && maker_price_level.len() > 0
        invariant
            forall|k: int|
                0 <= k < maker_price_level@.len() ==> (#[trigger] maker_price_level@[k]).trade_quantity
                    > 0,
            *taker_order == (Order { trade_quantity: taker_order.trade_quantity, ..taker0 }),
            queue_after(q0, t0) == queue_after(
                maker_price_level@,
                taker_order.trade_quantity,
            ),
            rem_after(q0, t0) == rem_after(maker_price_level@, taker_order.trade_quantity),
            fills(q0, t0) == done + fills(maker_price_level@, taker_order.trade_quantity),
            *next_trade_id == id0 + done.len(),
            events@ == ev0 + trade_events(done, taker0, id0),
            taker_order.trade_quantity > 0 ==> done.len() + maker_price_level@.len()
                <= q0.len(),
            done.len() <= q0.len(),
            id0 + q0.len() <= u64::MAX,
        decreases maker_price_level@.len(), taker_order.trade_quantity,
    {
        let ghost qv = maker_price_level@;
        let ghost tv = taker_order.trade_quantity;
        let ghost done_pre = done;
        let ghost maker_resting = maker_price_level@[0];
        let mut maker_order = maker_price_level.remove(0);
        let trade_qty = if taker_order.trade_quantity < maker_order.trade_quantity {
            taker_order.trade_quantity
        } else {
            maker_order.trade_quantity
        };
        taker_order.trade_quantity = taker_order.trade_quantity - trade_qty;
        maker_order.trade_quantity = maker_order.trade_quantity - trade_qty;
        *next_trade_id = *next_trade_id + 1;
        events.push(
            TradeEvent::OrderTraded(
                Trade {
                    trade_id: TradeID(*next_trade_id),
                    market_id: taker_order.market_id,
                    maker_order_id: maker_order.order_id,
                    taker_order_id: taker_order.order_id,
                    maker_user_id: maker_order.trader_id,
                    taker_user_id: taker_order.trader_id,
                    quantity: trade_qty,
                    price: maker_order.price,
                    timestamp: taker_order.timestamp,
                },
            ),
        );
        proof {
            done = done.push((maker_resting, trade_qty));
            lemma_trade_events_push(done_pre, (maker_resting, trade_qty), taker0, id0);
            assert(events@ == ev0 + trade_events(done_pre, taker0, id0) + trade_events(
                done,
                taker0,
                id0,
            ).skip(trade_events(done_pre, taker0, id0).len() as int)) by {
                assert(trade_events(done, taker0, id0) == trade_events(done_pre, taker0, id0).push(
                    TradeEvent::OrderTraded(
                        trade_of(
                            maker_resting,
                            trade_qty,
                            taker0,
                            (id0 + done_pre.len() + 1) as u64,
                        ),
                    ),
                ));
                assert(ev0 + trade_events(done_pre, taker0, id0) + trade_events(
                    done,
                    taker0,
                    id0,
                ).skip(trade_events(done_pre, taker0, id0).len() as int) =~= ev0 + trade_events(
                    done,
                    taker0,
                    id0,
                ));
                assert(events@ =~= ev0 + trade_events(done, taker0, id0));
            }
        }
        if maker_order.trade_quantity > 0 {
            maker_price_level.insert(0, maker_order);
            proof {
                assert(qv.remove(0).insert(0, maker_order) =~= qv.update(0, maker_order));
                assert(maker_price_level@ =~= qv.update(0, maker_order));
                assert(queue_after(qv, tv) == maker_price_level@);
                assert(fills(qv, tv) == seq![(maker_resting, trade_qty)]);
                assert(done_pre + fills(qv, tv) =~= done);
                assert(fills(maker_price_level@, 0) =~= Seq::<(Order, u64)>::empty());
                assert(done + fills(maker_price_level@, 0) =~= done);
                assert(rem_after(qv, tv) == 0);
            }
        } else {
            proof {
                assert(maker_price_level@ =~= qv.skip(1));
                let tv2 = (tv - maker_resting.trade_quantity) as u64;
                assert(taker_order.trade_quantity == tv2);
                assert(fills(qv, tv) == seq![(maker_resting, maker_resting.trade_quantity)]
                    + fills(qv.skip(1), tv2));
                assert(trade_qty == maker_resting.trade_quantity);
                assert(done_pre + fills(qv, tv) =~= done + fills(
                    maker_price_level@,
                    taker_order.trade_quantity,
                ));
                assert(queue_after(qv, tv) == queue_after(qv.skip(1), tv2));
                assert(rem_after(qv, tv) == rem_after(qv.skip(1), tv2));
            }
        }
        proof {
            assert(fills(q0, t0) == done + fills(
                maker_price_level@,
                taker_order.trade_quantity,
            )) by {
                assert(done_pre + fills(qv, tv) == done + fills(
                    maker_price_level@,
                    taker_order.trade_quantity,
                ));
                assert(fills(q0, t0) == done_pre + fills(qv, tv));
            }
        }
    }
    proof {
        assert(fills(maker_price_level@, taker_order.trade_quantity) =~= Seq::<(Order, u64)>::empty());
        assert(fills(q0, t0) =~= done);
        assert(queue_after(maker_price_level@, taker_order.trade_quantity) == maker_price_level@);
        assert(rem_after(maker_price_level@, taker_order.trade_quantity)
            == taker_order.trade_quantity);
    }
}

/// Matches the taker against one opposing side, level by level, while its
/// best level crosses the taker's limit. Consumed levels are dropped; a
/// partially consumed one keeps its place.
#[verifier::rlimit(80)]
fn match_against(
    levels: &mut Vec<(Price, PriceLevel)>,
    taker_side: TradeSide,
    order: &mut Order,
    events: &mut Vec<TradeEvent>,
    next_trade_id: &mut u64,
)
    requires
        side_wf(side_view(old(levels)@), opposite(taker_side)),
        *old(next_trade_id) + total_orders(side_view(old(levels)@)) <= u64::MAX,
    ensures
        side_view(final(levels)@) == side_after_match(
            side_view(old(levels)@),
            taker_side,
            old(order).price,
            old(order).trade_quantity,
        ),
        side_wf(side_view(final(levels)@), opposite(taker_side)),
        *final(order) == (Order {
            trade_quantity: taker_rem(
                side_view(old(levels)@),
                taker_side,
                old(order).price,
                old(order).trade_quantity,
            ),
            ..*old(order)
        }),
        *final(next_trade_id) == *old(next_trade_id) + match_fills(
            side_view(old(levels)@),
            taker_side,
            old(order).price,
            old(order).trade_quantity,
        ).len(),
        final(events)@ == old(events)@ + trade_events(
            match_fills(
                side_view(old(levels)@),
                taker_side,
                old(order).price,
                old(order).trade_quantity,
            ),
            *old(order),
            *old(next_trade_id),
        ),
{
    let ghost s0 = side_view(levels@);
    let ghost t0 = order.trade_quantity;
    let ghost taker0 = *order;
    let ghost id0 = *next_trade_id;
    let ghost ev0 = events@;
    let ghost mut done: Seq<(Order, u64)> = Seq::empty();
    let mut matching = true;
    proof {
        assert(trade_events(done, taker0, id0) =~= Seq::<TradeEvent>::empty());
        assert(events@ =~= ev0 + trade_events(done, taker0, id0));
        assert(done + match_fills(s0, taker_side, taker0.price, t0) =~= match_fills(
            s0,
            taker_side,
            taker0.price,
            t0,
        ));
    }
    while matching && order.trade_quantity > 0 && levels.len() > 0
        invariant
            side_wf(side_view(levels@), opposite(taker_side)),
            *order == (Order { trade_quantity: order.trade_quantity, ..taker0 }),
            side_after_match(s0, taker_side, taker0.price, t0) == side_after_match(
                side_view(levels@),
                taker_side,
                taker0.price,
                order.trade_quantity,
            ),
            taker_rem(s0, taker_side, taker0.price, t0) == taker_rem(
                side_view(levels@),
                taker_side,
                taker0.price,
                order.trade_quantity,
            ),
            match_fills(s0, taker_side, taker0.price, t0) == done + match_fills(
                side_view(levels@),
                taker_side,
                taker0.price,
                order.trade_quantity,
            ),
            *next_trade_id == id0 + done.len(),
            events@ == ev0 + trade_events(done, taker0, id0),
            order.trade_quantity > 0 ==> id0 + done.len() + total_orders(side_view(levels@))
                <= u64::MAX,
            !matching ==> levels@.len() > 0 && !crosses(
                taker_side,
                side_view(levels@)[0].0,
                taker0.price,
            ),
        decreases (if matching {
            1int
        } else {
            0int
        }), levels@.len(), order.trade_quantity,
    {
        let ghost sv = side_view(levels@);
        let ghost tv = order.trade_quantity;
        let ghost done_pre = done;
        let best_price = levels[0].0;
        proof {
            assert(sv[0] == (levels@[0].0, levels@[0].1@));
        }
        let cross = match taker_side {
            TradeSide::Buy => best_price <= order.price,
            TradeSide::Sell => best_price >= order.price,
        };
        if !cross {
            matching = false;
            proof {
                assert(!crosses(taker_side, sv[0].0, taker0.price));
            }
        } else {
            proof {
                assert(crosses(taker_side, sv[0].0, taker0.price));
                assert(level_wf(sv[0], opposite(taker_side)));
                lemma_total_orders_nonneg(sv.skip(1));
                assert(total_orders(sv) == sv[0].1.len() + total_orders(sv.skip(1)));
            }
            let ghost pre_raw = levels@;
            let (pl_price, mut best_level) = levels.remove(0);
            proof {
                pre_raw.remove_ensures(0);
                assert forall|i: int| 0 <= i < side_view(levels@).len() implies side_view(
                    levels@,
                )[i] == sv.skip(1)[i] by {
                    assert(levels@[i] == pre_raw[i + 1]);
                }
                assert(side_view(levels@) =~= sv.skip(1));
                assert(best_level@ == sv[0].1);
                assert(pl_price == sv[0].0);
                assert forall|k: int| 0 <= k < best_level@.len() implies (
                #[trigger] best_level@[k]).trade_quantity > 0 by {
                    assert(order_at(sv[0].1[k], sv[0].0, opposite(taker_side)));
                }
            }
            let ghost id_call = *next_trade_id;
            execute_trade(order, &mut best_level, events, next_trade_id);
            proof {
                lemma_queue_fill_props(sv[0].1, tv, sv[0].0, opposite(taker_side));
                let f = fills(sv[0].1, tv);
                lemma_trade_events_taker_agnostic(
                    f,
                    Order { trade_quantity: tv, ..taker0 },
                    taker0,
                    id_call,
                );
                lemma_trade_events_concat(done_pre, f, taker0, id0);
                done = done_pre + f;
                assert(events@ == ev0 + trade_events(done, taker0, id0)) by {
                    assert(events@ == (ev0 + trade_events(done_pre, taker0, id0)) + trade_events(
                        f,
                        taker0,
                        (id0 + done_pre.len()) as u64,
                    ));
                    assert((ev0 + trade_events(done_pre, taker0, id0)) + trade_events(
                        f,
                        taker0,
                        (id0 + done_pre.len()) as u64,
                    ) =~= ev0 + (trade_events(done_pre, taker0, id0) + trade_events(
                        f,
                        taker0,
                        (id0 + done_pre.len()) as u64,
                    )));
                }
                assert(*next_trade_id == id0 + done.len());
            }
            if best_level.len() > 0 {
                let ghost mid_raw = levels@;
                levels.insert(0, (pl_price, best_level));
                proof {
                    mid_raw.insert_ensures(0, (pl_price, best_level));
                    let q2 = queue_after(sv[0].1, tv);
                    assert forall|i: int| 0 <= i < side_view(levels@).len() implies side_view(
                        levels@,
                    )[i] == (seq![(sv[0].0, q2)] + sv.skip(1))[i] by {
                        if i == 0 {
                            assert(levels@[0] == (pl_price, best_level));
                        } else {
                            assert(levels@[i] == mid_raw[i - 1]);
                            assert(side_view(mid_raw)[i - 1] == sv.skip(1)[i - 1]);
                        }
                    }
                    assert(side_view(levels@) =~= seq![(sv[0].0, q2)] + sv.skip(1));
                    assert(rem_after(sv[0].1, tv) == 0);
                    assert(order.trade_quantity == 0);
                    assert(side_after_match(sv, taker_side, taker0.price, tv) == side_view(
                        levels@,
                    ));
                    assert(match_fills(sv, taker_side, taker0.price, tv) == fills(sv[0].1, tv));
                    assert(side_after_match(side_view(levels@), taker_side, taker0.price, 0)
                        == side_view(levels@));
                    assert(match_fills(side_view(levels@), taker_side, taker0.price, 0)
                        =~= Seq::<(Order, u64)>::empty());
                    assert(done + match_fills(side_view(levels@), taker_side, taker0.price, 0)
                        =~= done);
                    lemma_match_side_props(sv, taker_side, taker0.price, tv);
                }
            } else {
                proof {
                    let t2 = rem_after(sv[0].1, tv);
                    assert(order.trade_quantity == t2);
                    assert(side_after_match(sv, taker_side, taker0.price, tv) == side_after_match(
                        sv.skip(1),
                        taker_side,
                        taker0.price,
                        t2,
                    ));
                    assert(match_fills(sv, taker_side, taker0.price, tv) == fills(sv[0].1, tv)
                        + match_fills(sv.skip(1), taker_side, taker0.price, t2));
                    assert(taker_rem(sv, taker_side, taker0.price, tv) == taker_rem(
                        sv.skip(1),
                        taker_side,
                        taker0.price,
                        t2,
                    ));
                    assert(done_pre + (fills(sv[0].1, tv) + match_fills(
                        sv.skip(1),
                        taker_side,
                        taker0.price,
                        t2,
                    )) =~= done + match_fills(sv.skip(1), taker_side, taker0.price, t2));
                    assert forall|i: int, j: int|
                        0 <= i < j < side_view(levels@).len() implies crate::book::price_better(
                        opposite(taker_side),
                        (#[trigger] side_view(levels@)[i]).0,
                        (#[trigger] side_view(levels@)[j]).0,
                    ) by {
                        assert(side_view(levels@)[i] == sv[i + 1]);
                        assert(side_view(levels@)[j] == sv[j + 1]);
                    }
                    assert forall|i: int| 0 <= i < side_view(levels@).len() implies level_wf(
                        #[trigger] side_view(levels@)[i],
                        opposite(taker_side),
                    ) by {
                        assert(side_view(levels@)[i] == sv[i + 1]);
                    }
                    assert(fills(sv[0].1, tv).len() <= sv[0].1.len());
                }
            }
        }
    }
    proof {
        let cur = side_view(levels@);
        let t = order.trade_quantity;
        if matching && t > 0 {
            assert(levels@.len() == 0);
            assert(cur.len() == 0);
        }
        assert(side_after_match(cur, taker_side, taker0.price, t) == cur);
        assert(taker_rem(cur, taker_side, taker0.price, t) == t);
        assert(match_fills(cur, taker_side, taker0.price, t) =~= Seq::<(Order, u64)>::empty());
        assert(done + match_fills(cur, taker_side, taker0.price, t) =~= done);
        assert(taker0.price == old(order).price);
        assert(t0 == old(order).trade_quantity);
    }
}

/// Matches an incoming buy order against the ask side while the best ask
/// does not exceed its limit.
pub fn match_buy_order(book: &mut OrderBook, order: &mut Order, events: &mut Vec<TradeEvent>)
    requires
        side_wf(old(book).asks_view(), TradeSide::Sell),
        old(book).next_trade_id + total_orders(old(book).asks_view()) <= u64::MAX,
    ensures
        final(book).bids@ == old(book).bids@,
        final(book).asks_view() == side_after_match(
            old(book).asks_view(),
            TradeSide::Buy,
            old(order).price,
            old(order).trade_quantity,
        ),
        side_wf(final(book).asks_view(), TradeSide::Sell),
        *final(order) == (Order {
            trade_quantity: taker_rem(
                old(book).asks_view(),
                TradeSide::Buy,
                old(order).price,
                old(order).trade_quantity,
            ),
            ..*old(order)
        }),
        final(book).next_trade_id == old(book).next_trade_id + match_fills(
            old(book).asks_view(),
            TradeSide::Buy,
            old(order).price,
            old(order).trade_quantity,
        ).len(),
        final(events)@ == old(events)@ + trade_events(
            match_fills(
                old(book).asks_view(),
                TradeSide::Buy,
                old(order).price,
                old(order).trade_quantity,
            ),
            *old(order),
            old(book).next_trade_id,
        ),
{
    match_against(&mut book.ask, TradeSide::Buy, order, events, &mut book.next_trade_id);
}

/// Matches an incoming sell order against the bid side while the best bid
/// is not below its limit.
pub fn match_sell_order(book: &mut OrderBook, order: &mut Order, events: &mut Vec<TradeEvent>)
    requires
        side_wf(old(book).bids_view(), TradeSide::Buy),
        old(book).next_trade_id + total_orders(old(book).bids_view()) <= u64::MAX,
    ensures
        final(book).ask@ == old(book).ask@,
        final(book).bids_view() == side_after_match(
            old(book).bids_view(),
            TradeSide::Sell,
            old(order).price,
            old(order).trade_quantity,
        ),
        side_wf(final(book).bids_view(), TradeSide::Buy),
        *final(order) == (Order {
            trade_quantity: taker_rem(
                old(book).bids_view(),
                TradeSide::Sell,
                old(order).price,
                old(order).trade_quantity,
            ),
            ..*old(order)
        }),
        final(book).next_trade_id == old(book).next_trade_id + match_fills(
            old(book).bids_view(),
            TradeSide::Sell,
            old(order).price,
            old(order).trade_quantity,
        ).len(),
        final(events)@ == old(events)@ + trade_events(
            match_fills(
                old(book).bids_view(),
                TradeSide::Sell,
                old(order).price,
                old(order).trade_quantity,
            ),
            *old(order),
            old(book).next_trade_id,
        ),
{
    match_against(&mut book.bids, TradeSide::Sell, order, events, &mut book.next_trade_id);
}

/// Rests an order on its own side of the book: appended to the tail of its
/// price's queue, with the level created at its sorted position if absent.
fn insert_into_side(levels: &mut Vec<(Price, PriceLevel)>, side: TradeSide, order: Order)
    requires
        side_wf(side_view(old(levels)@), side),
        order_at(order, order.price, side),
        order.price > 0,
        find_price_index(side_view(old(levels)@), order.price) != -1 ==> sum_qty(
            side_view(old(levels)@)[find_price_index(side_view(old(levels)@), order.price)].1,
        ) + order.trade_quantity <= u64::MAX,
    ensures
        side_view(final(levels)@) == side_place(side, side_view(old(levels)@), order),
        side_wf(side_view(final(levels)@), side),
{
    let ghost sv = side_view(levels@);
    proof {
        lemma_side_place_wf(side, sv, order);
    }
    let mut i: usize = 0;
    while i < levels.len()
        invariant
            sv == side_view(old(levels)@),
            side_view(levels@) == sv,
            levels@.len() == sv.len(),
            0 <= i <= sv.len(),
            side_wf(sv, side),
            order_at(order, order.price, side),
            order.price > 0,
            find_price_index(sv, order.price) != -1 ==> sum_qty(
                sv[find_price_index(sv, order.price)].1,
            ) + order.trade_quantity <= u64::MAX,
            forall|j: int| 0 <= j < i ==> price_better(side, (#[trigger] sv[j]).0, order.price),
        decreases sv.len() - i,
    {
        let lp = levels[i].0;
        proof {
            assert(sv[i as int] == (levels@[i as int].0, levels@[i as int].1@));
        }
        let here = match side {
            TradeSide::Buy => lp <= order.price,
            TradeSide::Sell => lp >= order.price,
        };
        if here {
            proof {
                assert(!price_better(side, sv[i as int].0, order.price));
                lemma_insert_pos_is(side, sv, order.price, i as int);
                lemma_side_place_wf(side, sv, order);
            }
            if lp == order.price {
                let ghost pre_raw = levels@;
                let (p, mut q) = levels.remove(i);
                q.push(order);
                levels.insert(i, (p, q));
                proof {
                    let target = sv.update(i as int, (sv[i as int].0, sv[i as int].1.push(order)));
                    assert forall|j: int| 0 <= j < side_view(levels@).len() implies side_view(
                        levels@,
                    )[j] == target[j] by {
                        if j != i {
                            assert(levels@[j] == pre_raw.remove(i as int).insert(
                                i as int,
                                levels@[i as int],
                            )[j]);
                            assert(levels@[j] == pre_raw[j]);
                        } else {
                            assert(levels@[i as int] == (p, q));
                        }
                    }
                    assert(side_view(levels@) =~= target);
                    assert(side_place(side, sv, order) == target);
                }
                return ;
            } else {
                let ghost pre_raw = levels@;
                let mut q: Vec<Order> = Vec::new();
                q.push(order);
                levels.insert(i, (order.price, q));
                proof {
                    pre_raw.insert_ensures(i as int, (order.price, q));
                    let target = sv.insert(i as int, (order.price, seq![order]));
                    sv.insert_ensures(i as int, (order.price, seq![order]));
                    assert(q@ =~= seq![order]);
                    assert forall|j: int| 0 <= j < side_view(levels@).len() implies side_view(
                        levels@,
                    )[j] == target[j] by {
                        if j < i {
                            assert(levels@[j] == pre_raw[j]);
                            assert(target[j] == sv[j]);
                        } else if j == i {
                            assert(levels@[j] == (order.price, q));
                        } else {
                            assert(levels@[j] == pre_raw[j - 1]);
                            assert(target[j] == sv[j - 1]);
                        }
                    }
                    assert(side_view(levels@) =~= target);
                    assert(side_place(side, sv, order) == target);
                }
                return ;
            }
        }
        i += 1;
    }
    proof {
        lemma_insert_pos_is(side, sv, order.price, sv.len() as int);
        lemma_side_place_wf(side, sv, order);
    }
    let ghost pre_raw = levels@;
    let mut q: Vec<Order> = Vec::new();
    q.push(order);
    levels.push((order.price, q));
    proof {
        let target = sv.insert(sv.len() as int, (order.price, seq![order]));
        sv.insert_ensures(sv.len() as int, (order.price, seq![order]));
        assert(q@ =~= seq![order]);
        assert forall|j: int| 0 <= j < side_view(levels@).len() implies side_view(levels@)[j]
            == target[j] by {
            if j < sv.len() {
                assert(levels@[j] == pre_raw[j]);
                assert(target[j] == sv[j]);
            } else {
                assert(levels@[j] == (order.price, q));
            }
        }
        assert(side_view(levels@) =~= target);
        assert(side_place(side, sv, order) == target);
    }
}

/// Rests the order's remaining quantity on its own side and emits the
/// matching placement event.
pub fn place_order(book: &mut OrderBook, order: Order, events: &mut Vec<TradeEvent>)
    requires
        order.trade_quantity > 0,
        order.price > 0,
        side_wf(old(book).own_side_view(order.trade_side), order.trade_side),
        find_price_index(old(book).own_side_view(order.trade_side), order.price) != -1
            ==> sum_qty(
            old(book).own_side_view(order.trade_side)[find_price_index(
                old(book).own_side_view(order.trade_side),
                order.price,
            )].1,
        ) + order.trade_quantity <= u64::MAX,
    ensures
        final(book).own_side_view(order.trade_side) == side_place(
            order.trade_side,
            old(book).own_side_view(order.trade_side),
            order,
        ),
        side_wf(final(book).own_side_view(order.trade_side), order.trade_side),
        order.trade_side == TradeSide::Buy ==> final(book).ask@ == old(book).ask@,
        order.trade_side == TradeSide::Sell ==> final(book).bids@ == old(book).bids@,
        final(book).next_trade_id == old(book).next_trade_id,
        final(events)@ == old(events)@ + seq![placed_event(order)],
{
    match order.trade_side {
        TradeSide::Buy => insert_into_side(&mut book.bids, TradeSide::Buy, order),
        TradeSide::Sell => insert_into_side(&mut book.ask, TradeSide::Sell, order),
    }
    events.push(
        TradeEvent::OrderPlaced {
            order_id: order.order_id,
            trader_id: order.trader_id,
            market_id: order.market_id,
            side: order.trade_side,
            price: order.price,
            quantity: order.trade_quantity,
            order_type: order.order_type,
            timestamp: order.timestamp,
        },
    );
    proof {
        assert(events@ =~= old(events)@ + seq![placed_event(order)]);
    }
}

impl OrderBook {
    /// Processes one incoming limit order: matches it against the opposing
    /// side under price-time priority, rests any remainder on its own side,
    /// and returns the events in the exact order they occurred — the
    /// trades of the fill loop, then at most one trailing placement.
    pub fn process_order(&mut self, order: Order) -> (events: Vec<TradeEvent>)
        requires
            old(self).wf(),
            order.price > 0,
            order.trade_quantity > 0,
            old(self).next_trade_id + total_orders(old(self).opp_side_view(order.trade_side))
                <= u64::MAX,
            find_price_index(old(self).own_side_view(order.trade_side), order.price) != -1
                ==> sum_qty(
                old(self).own_side_view(order.trade_side)[find_price_index(
                    old(self).own_side_view(order.trade_side),
                    order.price,
                )].1,
            ) + order.trade_quantity <= u64::MAX,
        ensures
            final(self).wf(),
            ({
                let opp0 = old(self).opp_side_view(order.trade_side);
                let own0 = old(self).own_side_view(order.trade_side);
                let fs = match_fills(opp0, order.trade_side, order.price, order.trade_quantity);
                let rem = taker_rem(opp0, order.trade_side, order.price, order.trade_quantity);
                &&& final(self).opp_side_view(order.trade_side) == side_after_match(
                    opp0,
                    order.trade_side,
                    order.price,
                    order.trade_quantity,
                )
                &&& final(self).own_side_view(order.trade_side) == (if rem > 0 {
                    side_place(order.trade_side, own0, Order { trade_quantity: rem, ..order })
                } else {
                    own0
                })
                &&& final(self).next_trade_id == old(self).next_trade_id + fs.len()
                &&& events@ == trade_events(fs, order, old(self).next_trade_id) + (if rem > 0 {
                    seq![placed_event(Order { trade_quantity: rem, ..order })]
                } else {
                    Seq::<TradeEvent>::empty()
                })
            }),
    {
        let ghost book0 = *self;
        let ghost side = order.trade_side;
        let ghost limit = order.price;
        let ghost t0 = order.trade_quantity;
        let mut order = order;
        let mut events: Vec<TradeEvent> = Vec::new();
        if order.trade_side == TradeSide::Buy {
            match_buy_order(self, &mut order, &mut events);
        } else {
            match_sell_order(self, &mut order, &mut events);
        }
        proof {
            lemma_match_side_props(book0.opp_side_view(side), side, limit, t0);
        }
        if order.trade_quantity > 0 {
            place_order(self, order, &mut events);
            proof {
                let own0 = book0.own_side_view(side);
                let rem = taker_rem(book0.opp_side_view(side), side, limit, t0);
                lemma_side_place_wf(side, own0, Order { trade_quantity: rem, ..order });
            }
        }
        events
    }
}

/// An engine that turns incoming orders into ordered event streams.
pub trait ExecutionEngine {
    /// The engine's internal invariant.
    spec fn inv(&self) -> bool;

    /// Whether the engine can take this order within machine limits.
    spec fn can_accept(&self, order: Order) -> bool;

    /// Matches the order, rests any remainder and returns the events in
    /// the order they occurred.
    fn process_order(&mut self, order: Order) -> (events: Vec<TradeEvent>)
        requires
            old(self).inv(),
            old(self).can_accept(order),
        ensures
            final(self).inv(),
    ;
}

impl ExecutionEngine for OrderBook {
    /// The book invariant of [`OrderBook::wf`].
    open spec fn inv(&self) -> bool {
        self.wf()
    }

    /// A valid order whose processing cannot overflow the trade-id counter
    /// or a price-level total.
    open spec fn can_accept(&self, order: Order) -> bool {
        &&& order.price > 0
        &&& order.trade_quantity > 0
        &&& self.next_trade_id + total_orders(self.opp_side_view(order.trade_side)) <= u64::MAX
        &&& find_price_index(self.own_side_view(order.trade_side), order.price) != -1
            ==> sum_qty(
            self.own_side_view(order.trade_side)[find_price_index(
                self.own_side_view(order.trade_side),
                order.price,
            )].1,
        ) + order.trade_quantity <= u64::MAX
    }

    fn process_order(&mut self, order: Order) -> (events: Vec<TradeEvent>) {
        OrderBook::process_order(self, order)
    }
}

/// Index of the first order with the given id in a queue.
fn find_in_queue(q: &Vec<Order>, order_id: u64) -> (r: Option<usize>)
    ensures
        (match r {
            Some(j) => queue_find_id(q@, order_id) == j as int,
            None => queue_find_id(q@, order_id) == -1,
        }),
{
    let mut j: usize = 0;
    while j < q.len()
        invariant
            0 <= j <= q@.len(),
            forall|m: int| 0 <= m < j ==> (#[trigger] q@[m]).order_id != order_id,
        decreases q@.len() - j,
    {
        if q[j].order_id == order_id {
            proof {
                lemma_queue_find_id_is(q@, order_id, j as int);
            }
            return Some(j);
        }
        j += 1;
    }
    proof {
        lemma_queue_find_id_is(q@, order_id, q@.len() as int);
    }
    None
}

/// Removes the first order with the given id from a side, dropping its
/// level if that empties it; a side without the id is untouched.
fn remove_from_side(levels: &mut Vec<(Price, PriceLevel)>, order_id: u64) -> (r: Option<Order>)
    ensures
        side_find_id(side_view(old(levels)@), order_id) == -1 ==> (r == None::<Order>
            && final(levels)@ == old(levels)@),
        side_find_id(side_view(old(levels)@), order_id) != -1 ==> (r == Some(
            side_removed_order(side_view(old(levels)@), order_id),
        ) && side_view(final(levels)@) == side_remove_id(side_view(old(levels)@), order_id)),
{
    let ghost sv = side_view(levels@);
    let mut i: usize = 0;
    while i < levels.len()
        invariant
            sv == side_view(old(levels)@),
            levels@ == old(levels)@,
            0 <= i <= levels@.len(),
            forall|j: int| 0 <= j < i ==> queue_find_id((#[trigger] sv[j]).1, order_id) == -1,
        decreases levels@.len() - i,
    {
        proof {
            assert(sv[i as int] == (levels@[i as int].0, levels@[i as int].1@));
        }
        if let Some(j) = find_in_queue(&levels[i].1, order_id) {
            proof {
                lemma_side_find_id_is(sv, order_id, i as int);
                crate::book::lemma_queue_find_id(sv[i as int].1, order_id);
            }
            let ghost pre_raw = levels@;
            let ghost jj = queue_find_id(sv[i as int].1, order_id);
            let (p, mut q) = levels.remove(i);
            proof {
                assert(q@ == sv[i as int].1);
                assert(0 <= jj < q@.len());
                assert(jj == j as int);
            }
            let removed = q.remove(j);
            proof {
                assert(removed == sv[i as int].1[jj]);
                assert(removed == side_removed_order(sv, order_id));
                assert(q@ == sv[i as int].1.remove(jj));
            }
            if q.len() > 0 {
                levels.insert(i, (p, q));
                proof {
                    let target = sv.update(i as int, (sv[i as int].0, sv[i as int].1.remove(jj)));
                    assert forall|m: int| 0 <= m < side_view(levels@).len() implies side_view(
                        levels@,
                    )[m] == target[m] by {
                        if m != i {
                            assert(levels@[m] == pre_raw.remove(i as int).insert(
                                i as int,
                                levels@[i as int],
                            )[m]);
                            assert(levels@[m] == pre_raw[m]);
                        } else {
                            assert(levels@[m] == (p, q));
                        }
                    }
                    assert(side_view(levels@) =~= target);
                    assert(side_remove_id(sv, order_id) == target);
                }
            } else {
                proof {
                    pre_raw.remove_ensures(i as int);
                    sv.remove_ensures(i as int);
                    let target = sv.remove(i as int);
                    assert forall|m: int| 0 <= m < side_view(levels@).len() implies side_view(
                        levels@,
                    )[m] == target[m] by {
                        if m < i {
                            assert(levels@[m] == pre_raw[m]);
                            assert(target[m] == sv[m]);
                        } else {
                            assert(levels@[m] == pre_raw[m + 1]);
                            assert(target[m] == sv[m + 1]);
                        }
                    }
                    assert(side_view(levels@) =~= target);
                    assert(side_remove_id(sv, order_id) == target);
                }
            }
            return Some(removed);
        }
        i += 1;
    }
    proof {
        lemma_side_find_id_is(sv, order_id, sv.len() as int);
    }
    None
}

/// Removes and returns the oldest order of the level at `price`, deleting
/// the level if that empties it; a side without the price is untouched.
fn pop_front_of_side(levels: &mut Vec<(Price, PriceLevel)>, price: Price) -> (r: Option<Order>)
    requires
        forall|i: int|
            0 <= i < side_view(old(levels)@).len() ==> (#[trigger] side_view(
                old(levels)@,
            )[i]).1.len() > 0,
    ensures
        ({
            let sv = side_view(old(levels)@);
            let k = find_price_index(sv, price);
            if k == -1 {
                r == None::<Order> && final(levels)@ == old(levels)@
            } else {
                &&& r == Some(sv[k].1[0])
                &&& side_view(final(levels)@) == (if sv[k].1.len() == 1 {
                    sv.remove(k)
                } else {
                    sv.update(k, (sv[k].0, sv[k].1.skip(1)))
                })
            }
        }),
{
    let ghost sv = side_view(levels@);
    let mut i: usize = 0;
    while i < levels.len()
        invariant
            sv == side_view(old(levels)@),
            levels@ == old(levels)@,
            0 <= i <= levels@.len(),
            forall|j: int| 0 <= j < sv.len() ==> (#[trigger] sv[j]).1.len() > 0,
            forall|j: int| 0 <= j < i ==> (#[trigger] sv[j]).0 != price,
        decreases levels@.len() - i,
    {
        proof {
            assert(sv[i as int] == (levels@[i as int].0, levels@[i as int].1@));
        }
        if levels[i].0 == price {
            proof {
                lemma_find_price_index_is(sv, price, i as int);
            }
            let ghost pre_raw = levels@;
            let (p, mut q) = levels.remove(i);
            proof {
                assert(q@ == sv[i as int].1);
                assert(q@.len() > 0);
            }
            let front = q.remove(0);
            proof {
                assert(front == sv[i as int].1[0]);
            }
            if q.len() > 0 {
                levels.insert(i, (p, q));
                proof {
                    assert(q@ =~= sv[i as int].1.skip(1));
                    let target = sv.update(i as int, (sv[i as int].0, sv[i as int].1.skip(1)));
                    assert forall|m: int| 0 <= m < side_view(levels@).len() implies side_view(
                        levels@,
                    )[m] == target[m] by {
                        if m != i {
                            assert(levels@[m] == pre_raw.remove(i as int).insert(
                                i as int,
                                levels@[i as int],
                            )[m]);
                            assert(levels@[m] == pre_raw[m]);
                        } else {
                            assert(levels@[m] == (p, q));
                        }
                    }
                    assert(side_view(levels@) =~= target);
                }
            } else {
                proof {
                    assert(sv[i as int].1.len() == 1);
                    pre_raw.remove_ensures(i as int);
                    sv.remove_ensures(i as int);
                    let target = sv.remove(i as int);
                    assert forall|m: int| 0 <= m < side_view(levels@).len() implies side_view(
                        levels@,
                    )[m] == target[m] by {
                        if m < i {
                            assert(levels@[m] == pre_raw[m]);
                            assert(target[m] == sv[m]);
                        } else {
                            assert(levels@[m] == pre_raw[m + 1]);
                            assert(target[m] == sv[m + 1]);
                        }
                    }
                    assert(side_view(levels@) =~= target);
                }
            }
            return Some(front);
        }
        i += 1;
    }
    proof {
        lemma_find_price_index_is(sv, price, sv.len() as int);
    }
    None
}

impl OrderBook {
    /// Removes and returns the oldest resting order at the given price on
    /// the given side, deleting the level if that empties it; nothing when
    /// no level rests at that price.
    pub fn pop_front(&mut self, side: TradeSide, price: Price) -> (r: Option<Order>)
        requires
            old(self).wf(),
        ensures
            final(self).wf(),
            final(self).next_trade_id == old(self).next_trade_id,
            side == TradeSide::Buy ==> final(self).ask@ == old(self).ask@,
            side == TradeSide::Sell ==> final(self).bids@ == old(self).bids@,
            ({
                let s = old(self).own_side_view(side);
                let k = find_price_index(s, price);
                if k == -1 {
                    r == None::<Order> && final(self).own_side_view(side) == s
                } else {
                    &&& r == Some(s[k].1[0])
                    &&& final(self).own_side_view(side) == (if s[k].1.len() == 1 {
                        s.remove(k)
                    } else {
                        s.update(k, (s[k].0, s[k].1.skip(1)))
                    })
                }
            }),
    {
        proof {
            let s = self.own_side_view(side);
            let k = find_price_index(s, price);
            crate::levels::lemma_find_price_index(s, price);
            if k != -1 {
                lemma_side_pop_front_wf(s, side, k);
            }
            assert forall|i: int| 0 <= i < s.len() implies (#[trigger] s[i]).1.len() > 0 by {
                assert(level_wf(s[i], side));
            }
        }
        match side {
            TradeSide::Buy => pop_front_of_side(&mut self.bids, price),
            TradeSide::Sell => pop_front_of_side(&mut self.ask, price),
        }
    }

    /// Locates and removes one resting order by its id, searching bids
    /// first, then asks; returns the removed order, or nothing when no
    /// resting order carries the id.
    pub fn remove_by_id(&mut self, order_id: u64) -> (r: Option<Order>)
        requires
            old(self).wf(),
        ensures
            final(self).wf(),
            final(self).next_trade_id == old(self).next_trade_id,
            ({
                let kb = side_find_id(old(self).bids_view(), order_id);
                let ka = side_find_id(old(self).asks_view(), order_id);
                if kb != -1 {
                    &&& r == Some(side_removed_order(old(self).bids_view(), order_id))
                    &&& final(self).bids_view() == side_remove_id(old(self).bids_view(), order_id)
                    &&& final(self).ask@ == old(self).ask@
                } else if ka != -1 {
                    &&& r == Some(side_removed_order(old(self).asks_view(), order_id))
                    &&& final(self).asks_view() == side_remove_id(old(self).asks_view(), order_id)
                    &&& final(self).bids@ == old(self).bids@
                } else {
                    &&& r == None::<Order>
                    &&& final(self).bids@ == old(self).bids@
                    &&& final(self).ask@ == old(self).ask@
                }
            }),
    {
        proof {
            lemma_side_remove_wf(self.bids_view(), TradeSide::Buy, order_id);
            lemma_side_remove_wf(self.asks_view(), TradeSide::Sell, order_id);
        }
        let from_bids = remove_from_side(&mut self.bids, order_id);
        if let Some(o) = from_bids {
            return Some(o);
        }
        let from_asks = remove_from_side(&mut self.ask, order_id);
        from_asks
    }

    /// Cancels a resting order: removes it entirely and emits one
    /// cancellation event, or fails with [`OrderError::OrderNotFound`]
    /// when the id is not resting, leaving the book unchanged.
    pub fn cancel_order(&mut self, order_id: u64) -> (r: Result<TradeEvent, OrderError>)
        requires
            old(self).wf(),
        ensures
            final(self).wf(),
            final(self).next_trade_id == old(self).next_trade_id,
            ({
                let kb = side_find_id(old(self).bids_view(), order_id);
                let ka = side_find_id(old(self).asks_view(), order_id);
                if kb != -1 {
                    &&& r == Ok::<TradeEvent, OrderError>(
                        TradeEvent::OrderCancelled {
                            order_id,
                            timestamp: side_removed_order(
                                old(self).bids_view(),
                                order_id,
                            ).timestamp,
                        },
                    )
                    &&& final(self).bids_view() == side_remove_id(old(self).bids_view(), order_id)
                    &&& final(self).ask@ == old(self).ask@
                } else if ka != -1 {
                    &&& r == Ok::<TradeEvent, OrderError>(
                        TradeEvent::OrderCancelled {
                            order_id,
                            timestamp: side_removed_order(
                                old(self).asks_view(),
                                order_id,
                            ).timestamp,
                        },
                    )
                    &&& final(self).asks_view() == side_remove_id(old(self).asks_view(), order_id)
                    &&& final(self).bids@ == old(self).bids@
                } else {
                    &&& r == Err::<TradeEvent, OrderError>(OrderError::OrderNotFound)
                    &&& final(self).bids@ == old(self).bids@
                    &&& final(self).ask@ == old(self).ask@
                }
            }),
    {
        match self.remove_by_id(order_id) {
            Some(o) => Ok(TradeEvent::OrderCancelled { order_id, timestamp: o.timestamp }),
            None => Err(OrderError::OrderNotFound),
        }
    }
}

/// Total quantity resting in one level's queue.
fn level_total(q: &Vec<Order>) -> (r: u64)
    requires
        sum_qty(q@) <= u64::MAX,
    ensures
        r == sum_qty(q@),
{
    let mut acc: u64 = 0;
    let mut j: usize = 0;
    proof {
        assert(q@.skip(0) =~= q@);
    }
    while j < q.len()
        invariant
            0 <= j <= q@.len(),
            sum_qty(q@) <= u64::MAX,
            acc == sum_qty(q@) - sum_qty(q@.skip(j as int)),
            acc >= 0,
        decreases q@.len() - j,
    {
        proof {
            lemma_sum_qty_skip_unfold(q@, j as int);
            lemma_sum_qty_nonneg(q@.skip(j + 1));
        }
        acc = acc + q[j].trade_quantity;
        j += 1;
    }
    proof {
        assert(q@.skip(q@.len() as int) =~= Seq::<Order>::empty());
    }
    acc
}

/// Depth entries of one side: each level's price and total resting
/// quantity, best level first.
fn depth_of_levels(levels: &Vec<(Price, PriceLevel)>) -> (r: Vec<(Price, Quantity)>)
    requires
        forall|i: int|
            0 <= i < levels@.len() ==> sum_qty((#[trigger] side_view(levels@)[i]).1) <= u64::MAX,
    ensures
        r@.len() == levels@.len(),
        forall|i: int|
            0 <= i < levels@.len() ==> (#[trigger] r@[i]).0 == side_view(levels@)[i].0 && r@[i].1
                == sum_qty(side_view(levels@)[i].1),
{
    let mut r: Vec<(Price, Quantity)> = Vec::new();
    let mut i: usize = 0;
    while i < levels.len()
        invariant
            0 <= i <= levels@.len(),
            forall|k: int|
                0 <= k < levels@.len() ==> sum_qty((#[trigger] side_view(levels@)[k]).1)
                    <= u64::MAX,
            r@.len() == i,
            forall|k: int|
                0 <= k < i ==> (#[trigger] r@[k]).0 == side_view(levels@)[k].0 && r@[k].1
                    == sum_qty(side_view(levels@)[k].1),
        decreases levels@.len() - i,
    {
        proof {
            assert(side_view(levels@)[i as int] == (levels@[i as int].0, levels@[i as int].1@));
        }
        let total = level_total(&levels[i].1);
        r.push((levels[i].0, total));
        i += 1;
    }
    r
}

/// A consistent point-in-time view of both sides' depth.
pub struct BookDepth {
    pub bids: Vec<(Price, Quantity)>,
    pub asks: Vec<(Price, Quantity)>,
}

/// What a depth report of `b` holds: level by level, best first, each
/// side's prices with the total quantity resting at them.
pub open spec fn is_depth_of(b: OrderBook, d: BookDepth) -> bool {
    &&& d.bids@.len() == b.bids@.len()
    &&& forall|i: int|
        0 <= i < d.bids@.len() ==> (#[trigger] d.bids@[i]).0 == b.bids_view()[i].0 && d.bids@[i].1
            == sum_qty(b.bids_view()[i].1)
    &&& d.asks@.len() == b.ask@.len()
    &&& forall|i: int|
        0 <= i < d.asks@.len() ==> (#[trigger] d.asks@[i]).0 == b.asks_view()[i].0 && d.asks@[i].1
            == sum_qty(b.asks_view()[i].1)
}

impl OrderBook {
    /// Reports, for each price level of each side, the aggregate resting
    /// quantity, best levels first. The book is not changed.
    pub fn depth_snapshot(&self) -> (r: BookDepth)
        requires
            self.wf(),
        ensures
            is_depth_of(*self, r),
    {
        proof {
            assert forall|i: int| 0 <= i < self.bids@.len() implies sum_qty(
                (#[trigger] side_view(self.bids@)[i]).1,
            ) <= u64::MAX by {
                assert(level_wf(self.bids_view()[i], TradeSide::Buy));
            }
            assert forall|i: int| 0 <= i < self.ask@.len() implies sum_qty(
                (#[trigger] side_view(self.ask@)[i]).1,
            ) <= u64::MAX by {
                assert(level_wf(self.asks_view()[i], TradeSide::Sell));
            }
        }
        let bids = depth_of_levels(&self.bids);
        let asks = depth_of_levels(&self.ask);
        BookDepth { bids, asks }
    }
}

} // verus!
