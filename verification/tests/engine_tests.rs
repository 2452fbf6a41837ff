use clob::Order;
use clob::OrderBook;
use clob::OrderError;
use clob::OrderType;
use clob::TradeEvent;
use clob::TradeSide;

fn make_order(
    order_id: u64,
    trader_id: u64,
    market_id: u64,
    trade_side: TradeSide,
    price: u64,
    trade_quantity: u64,
    order_type: OrderType,
    timestamp: u64,
) -> Order {
    Order {
        order_id,
        trader_id,
        market_id,
        trade_side,
        price,
        trade_quantity,
        order_type,
        timestamp,
    }
}

#[test]
fn order_with_no_match() {
    let mut book = OrderBook { bids: Vec::new(), ask: Vec::new(), next_trade_id: 0 };

    let order = make_order(1, 1, 1, TradeSide::Buy, 100, 10, OrderType::Limit, 0);
    let events = book.process_order(order);

    assert_eq!(book.bids.len(), 1);
    assert_eq!(book.ask.len(), 0);
    assert_eq!(book.bids[0].0, 100);
    assert_eq!(book.bids[0].1.len(), 1);
    assert_eq!(events.len(), 1);
    assert!(matches!(events[0], TradeEvent::OrderPlaced { .. }))
}

#[test]
fn full_order() {
    let mut book = OrderBook { bids: Vec::new(), ask: Vec::new(), next_trade_id: 0 };
    let maker_order = make_order(1, 1, 1, TradeSide::Sell, 100, 10, OrderType::Limit, 0);
    book.process_order(maker_order);
    let taker_order = make_order(2, 2, 1, TradeSide::Buy, 100, 10, OrderType::Limit, 0);
    let event = book.process_order(taker_order);

    assert!(book.bids.is_empty());
    assert!(book.ask.is_empty());
    assert_eq!(event.len(), 1);
    match &event[0] {
        TradeEvent::OrderTraded(trade) => {
            assert_eq!(trade.maker_order_id, maker_order.trader_id);
            assert_eq!(trade.taker_user_id, taker_order.trader_id)
        }
        _ => panic!("need some trade events"),
    }
}

#[test]
fn place_on_empty_book() {
    let mut book = OrderBook::new();
    let events = book.process_order(make_order(7, 3, 1, TradeSide::Buy, 100, 10, OrderType::Limit, 5));

    assert_eq!(events.len(), 1);
    match &events[0] {
        TradeEvent::OrderPlaced { order_id, trader_id, side, price, quantity, timestamp, .. } => {
            assert_eq!(*order_id, 7);
            assert_eq!(*trader_id, 3);
            assert!(matches!(side, TradeSide::Buy));
            assert_eq!(*price, 100);
            assert_eq!(*quantity, 10);
            assert_eq!(*timestamp, 5);
        }
        _ => panic!("expected a placement"),
    }
    assert_eq!(book.bids.len(), 1);
    assert_eq!(book.bids[0].0, 100);
    assert_eq!(book.bids[0].1.len(), 1);
    assert!(book.ask.is_empty());
}

#[test]
fn exact_cross_empties_both_sides() {
    let mut book = OrderBook::new();
    book.process_order(make_order(1, 1, 1, TradeSide::Sell, 100, 10, OrderType::Limit, 0));
    let events = book.process_order(make_order(2, 2, 1, TradeSide::Buy, 100, 10, OrderType::Limit, 9));

    assert_eq!(events.len(), 1);
    match &events[0] {
        TradeEvent::OrderTraded(trade) => {
            assert_eq!(trade.quantity, 10);
            assert_eq!(trade.price, 100);
            assert_eq!(trade.maker_order_id, 1);
            assert_eq!(trade.taker_order_id, 2);
            assert_eq!(trade.maker_user_id, 1);
            assert_eq!(trade.taker_user_id, 2);
            assert_eq!(trade.trade_id.0, 1);
            assert_eq!(trade.timestamp, 9);
        }
        _ => panic!("expected a trade"),
    }
    assert!(book.bids.is_empty());
    assert!(book.ask.is_empty());
    assert_eq!(book.next_trade_id, 1);
}

#[test]
fn fifo_within_level() {
    let mut book = OrderBook::new();
    book.process_order(make_order(1, 1, 1, TradeSide::Sell, 100, 5, OrderType::Limit, 0));
    book.process_order(make_order(2, 2, 1, TradeSide::Sell, 100, 5, OrderType::Limit, 1));
    let events = book.process_order(make_order(3, 3, 1, TradeSide::Buy, 100, 7, OrderType::Limit, 2));

    assert_eq!(events.len(), 2);
    match &events[0] {
        TradeEvent::OrderTraded(trade) => {
            assert_eq!(trade.maker_order_id, 1);
            assert_eq!(trade.quantity, 5);
        }
        _ => panic!("expected a trade first"),
    }
    match &events[1] {
        TradeEvent::OrderTraded(trade) => {
            assert_eq!(trade.maker_order_id, 2);
            assert_eq!(trade.quantity, 2);
        }
        _ => panic!("expected a trade second"),
    }
    assert!(book.bids.is_empty());
    assert_eq!(book.ask.len(), 1);
    assert_eq!(book.ask[0].1.len(), 1);
    assert_eq!(book.ask[0].1[0].order_id, 2);
    assert_eq!(book.ask[0].1[0].trade_quantity, 3);
}

#[test]
fn no_cross_leaves_resting_side_untouched() {
    let mut book = OrderBook::new();
    book.process_order(make_order(1, 1, 1, TradeSide::Sell, 100, 10, OrderType::Limit, 0));
    let events = book.process_order(make_order(2, 2, 1, TradeSide::Buy, 90, 10, OrderType::Limit, 1));

    assert_eq!(events.len(), 1);
    assert!(matches!(events[0], TradeEvent::OrderPlaced { .. }));
    assert_eq!(book.ask.len(), 1);
    assert_eq!(book.ask[0].0, 100);
    assert_eq!(book.ask[0].1[0].trade_quantity, 10);
    assert_eq!(book.bids.len(), 1);
    assert_eq!(book.bids[0].0, 90);
    assert_eq!(book.best_bid(), Some(90));
    assert_eq!(book.best_ask(), Some(100));
    assert_eq!(book.next_trade_id, 0);
}

#[test]
fn cancel_after_full_fill_reports_not_found() {
    let mut book = OrderBook::new();
    book.process_order(make_order(1, 1, 1, TradeSide::Sell, 100, 10, OrderType::Limit, 0));
    book.process_order(make_order(2, 2, 1, TradeSide::Buy, 100, 10, OrderType::Limit, 1));

    let r = book.cancel_order(1);
    assert_eq!(r, Err(OrderError::OrderNotFound));
    assert!(book.bids.is_empty());
    assert!(book.ask.is_empty());
    assert_eq!(book.next_trade_id, 1);
}

#[test]
fn cancel_resting_order_emits_single_event() {
    let mut book = OrderBook::new();
    book.process_order(make_order(4, 1, 1, TradeSide::Buy, 95, 8, OrderType::Limit, 11));
    let r = book.cancel_order(4);

    match r {
        Ok(TradeEvent::OrderCancelled { order_id, timestamp }) => {
            assert_eq!(order_id, 4);
            assert_eq!(timestamp, 11);
        }
        _ => panic!("expected a cancellation"),
    }
    assert!(book.bids.is_empty());
    assert_eq!(book.cancel_order(4), Err(OrderError::OrderNotFound));
}

#[test]
fn price_priority_across_levels() {
    let mut book = OrderBook::new();
    book.process_order(make_order(1, 1, 1, TradeSide::Sell, 100, 10, OrderType::Limit, 0));
    book.process_order(make_order(2, 2, 1, TradeSide::Sell, 90, 10, OrderType::Limit, 1));
    let events = book.process_order(make_order(3, 3, 1, TradeSide::Buy, 100, 15, OrderType::Limit, 2));

    assert_eq!(events.len(), 2);
    match &events[0] {
        TradeEvent::OrderTraded(trade) => {
            assert_eq!(trade.price, 90);
            assert_eq!(trade.quantity, 10);
            assert_eq!(trade.trade_id.0, 1);
        }
        _ => panic!("expected the cheaper maker first"),
    }
    match &events[1] {
        TradeEvent::OrderTraded(trade) => {
            assert_eq!(trade.price, 100);
            assert_eq!(trade.quantity, 5);
            assert_eq!(trade.trade_id.0, 2);
        }
        _ => panic!("expected the dearer maker second"),
    }
    assert!(book.bids.is_empty());
    assert_eq!(book.ask.len(), 1);
    assert_eq!(book.ask[0].1[0].trade_quantity, 5);
}

#[test]
fn trade_ids_increase_across_commands() {
    let mut book = OrderBook::new();
    book.process_order(make_order(1, 1, 1, TradeSide::Sell, 100, 5, OrderType::Limit, 0));
    let first = book.process_order(make_order(2, 2, 1, TradeSide::Buy, 100, 5, OrderType::Limit, 1));
    book.process_order(make_order(3, 1, 1, TradeSide::Sell, 100, 5, OrderType::Limit, 2));
    let second = book.process_order(make_order(4, 2, 1, TradeSide::Buy, 100, 5, OrderType::Limit, 3));

    let id_of = |e: &TradeEvent| match e {
        TradeEvent::OrderTraded(trade) => trade.trade_id.0,
        _ => panic!("expected a trade"),
    };
    assert_eq!(id_of(&first[0]), 1);
    assert_eq!(id_of(&second[0]), 2);
    assert_eq!(book.next_trade_id, 2);
}

#[test]
fn partial_fill_rests_remainder() {
    let mut book = OrderBook::new();
    book.process_order(make_order(1, 1, 1, TradeSide::Sell, 100, 4, OrderType::Limit, 0));
    let events = book.process_order(make_order(2, 2, 1, TradeSide::Buy, 100, 10, OrderType::Limit, 1));

    assert_eq!(events.len(), 2);
    match &events[0] {
        TradeEvent::OrderTraded(trade) => assert_eq!(trade.quantity, 4),
        _ => panic!("expected a trade first"),
    }
    match &events[1] {
        TradeEvent::OrderPlaced { quantity, price, .. } => {
            assert_eq!(*quantity, 6);
            assert_eq!(*price, 100);
        }
        _ => panic!("expected the remainder placed"),
    }
    assert!(book.ask.is_empty());
    assert_eq!(book.bids.len(), 1);
    assert_eq!(book.bids[0].1[0].trade_quantity, 6);
}

#[test]
fn depth_snapshot_aggregates_and_repeats() {
    let mut book = OrderBook::new();
    book.process_order(make_order(1, 1, 1, TradeSide::Buy, 90, 3, OrderType::Limit, 0));
    book.process_order(make_order(2, 2, 1, TradeSide::Buy, 90, 4, OrderType::Limit, 1));
    book.process_order(make_order(3, 3, 1, TradeSide::Buy, 80, 5, OrderType::Limit, 2));
    book.process_order(make_order(4, 4, 1, TradeSide::Sell, 110, 6, OrderType::Limit, 3));

    let d1 = book.depth_snapshot();
    let d2 = book.depth_snapshot();

    assert_eq!(d1.bids, vec![(90, 7), (80, 5)]);
    assert_eq!(d1.asks, vec![(110, 6)]);
    assert_eq!(d1.bids, d2.bids);
    assert_eq!(d1.asks, d2.asks);
}

#[test]
fn remove_by_id_returns_the_resting_order() {
    let mut book = OrderBook::new();
    book.process_order(make_order(5, 9, 1, TradeSide::Sell, 105, 12, OrderType::Limit, 4));
    let removed = book.remove_by_id(5).expect("order should rest");

    assert_eq!(removed.order_id, 5);
    assert_eq!(removed.trader_id, 9);
    assert_eq!(removed.trade_quantity, 12);
    assert!(book.ask.is_empty());
    assert_eq!(book.remove_by_id(5), None);
}

#[test]
fn pop_front_takes_the_oldest_and_drops_empty_levels() {
    let mut book = OrderBook::new();
    book.process_order(make_order(1, 1, 1, TradeSide::Sell, 100, 5, OrderType::Limit, 0));
    book.process_order(make_order(2, 2, 1, TradeSide::Sell, 100, 7, OrderType::Limit, 1));

    assert_eq!(book.pop_front(TradeSide::Buy, 100), None);
    assert_eq!(book.pop_front(TradeSide::Sell, 99), None);

    let first = book.pop_front(TradeSide::Sell, 100).expect("level rests");
    assert_eq!(first.order_id, 1);
    assert_eq!(book.ask[0].1.len(), 1);

    let second = book.pop_front(TradeSide::Sell, 100).expect("one order left");
    assert_eq!(second.order_id, 2);
    assert!(book.ask.is_empty());
    assert_eq!(book.pop_front(TradeSide::Sell, 100), None);
}

#[test]
fn invalid_orders_are_rejected() {
    assert_eq!(
        Order::new(1, 1, 1, TradeSide::Buy, 0, 10, OrderType::Limit, 0),
        Err(OrderError::InvalidOrder)
    );
    assert_eq!(
        Order::new(1, 1, 1, TradeSide::Sell, 100, 0, OrderType::Limit, 0),
        Err(OrderError::InvalidOrder)
    );
    let ok = Order::new(1, 2, 3, TradeSide::Sell, 100, 10, OrderType::Limit, 4).expect("valid");
    assert_eq!(ok.order_id, 1);
    assert_eq!(ok.trader_id, 2);
    assert_eq!(ok.market_id, 3);
    assert_eq!(ok.price, 100);
    assert_eq!(ok.trade_quantity, 10);
    assert_eq!(ok.timestamp, 4);
}

#[test]
fn conservation_of_quantity() {
    let mut book = OrderBook::new();
    book.process_order(make_order(1, 1, 1, TradeSide::Sell, 100, 3, OrderType::Limit, 0));
    book.process_order(make_order(2, 2, 1, TradeSide::Sell, 101, 4, OrderType::Limit, 1));
    let events = book.process_order(make_order(3, 3, 1, TradeSide::Buy, 101, 12, OrderType::Limit, 2));

    let mut traded: u64 = 0;
    let mut rested: u64 = 0;
    for event in &events {
        match event {
            TradeEvent::OrderTraded(trade) => traded += trade.quantity,
            TradeEvent::OrderPlaced { quantity, .. } => rested += quantity,
            _ => panic!("unexpected event"),
        }
    }
    assert_eq!(traded, 7);
    assert_eq!(rested, 5);
    assert_eq!(traded + rested, 12);
}

#[test]
fn largest_quantity_rests_and_reports() {
    let mut book = OrderBook::new();
    let events =
        book.process_order(make_order(1, 1, 1, TradeSide::Sell, 100, u64::MAX, OrderType::Limit, 0));

    assert_eq!(events.len(), 1);
    let depth = book.depth_snapshot();
    assert_eq!(depth.asks, vec![(100, u64::MAX)]);
    assert!(depth.bids.is_empty());
}

#[test]
fn bids_descending_asks_ascending() {
    let mut book = OrderBook::new();
    book.process_order(make_order(1, 1, 1, TradeSide::Buy, 90, 1, OrderType::Limit, 0));
    book.process_order(make_order(2, 1, 1, TradeSide::Buy, 95, 1, OrderType::Limit, 1));
    book.process_order(make_order(3, 1, 1, TradeSide::Buy, 92, 1, OrderType::Limit, 2));
    book.process_order(make_order(4, 1, 1, TradeSide::Sell, 105, 1, OrderType::Limit, 3));
    book.process_order(make_order(5, 1, 1, TradeSide::Sell, 101, 1, OrderType::Limit, 4));

    assert_eq!(book.bids[0].0, 95);
    assert_eq!(book.bids[1].0, 92);
    assert_eq!(book.bids[2].0, 90);
    assert_eq!(book.ask[0].0, 101);
    assert_eq!(book.ask[1].0, 105);
    assert_eq!(book.best_bid(), Some(95));
    assert_eq!(book.best_ask(), Some(101));
}
