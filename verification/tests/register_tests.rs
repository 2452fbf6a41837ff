use clob::CreateOrder;
use clob::DeleteOrder;
use clob::Orderbook;
use clob::Side;

fn buy_request(price: u64, quantity: u64, user: &str) -> CreateOrder {
    CreateOrder { price, quantity, user_id: String::from(user), side: Side::Buy }
}

fn sell_request(price: u64, quantity: u64, user: &str) -> CreateOrder {
    CreateOrder { price, quantity, user_id: String::from(user), side: Side::Sell }
}

#[test]
fn register_starts_empty() {
    let book = Orderbook::default();
    assert_eq!(book.bids.len(), 0);
    assert_eq!(book.asks.len(), 0);
    assert_eq!(book.order_id_index, 0);
}

#[test]
fn create_order_assigns_ids_and_levels() {
    let mut book = Orderbook::default();
    book.create_order(buy_request(100, 10, "alice"));
    book.create_order(buy_request(100, 5, "bob"));
    book.create_order(sell_request(110, 7, "carol"));

    assert_eq!(book.order_id_index, 3);
    assert_eq!(book.bids.len(), 1);
    assert_eq!(book.bids[0].0, 100);
    assert_eq!(book.bids[0].1.len(), 2);
    assert_eq!(book.bids[0].1[0].order_id, 0);
    assert_eq!(book.bids[0].1[0].user_id, "alice");
    assert_eq!(book.bids[0].1[1].order_id, 1);
    assert_eq!(book.bids[0].1[1].filled_quantity, 0);
    assert_eq!(book.asks.len(), 1);
    assert_eq!(book.asks[0].0, 110);
    assert_eq!(book.asks[0].1[0].order_id, 2);
}

#[test]
fn delete_order_removes_only_that_id() {
    let mut book = Orderbook::default();
    book.create_order(buy_request(100, 10, "alice"));
    book.create_order(buy_request(100, 5, "bob"));
    book.delete_order(DeleteOrder { order_id: 0 });

    assert_eq!(book.bids.len(), 1);
    assert_eq!(book.bids[0].1.len(), 1);
    assert_eq!(book.bids[0].1[0].order_id, 1);
    assert_eq!(book.order_id_index, 2);
}

#[test]
fn delete_unknown_id_changes_nothing() {
    let mut book = Orderbook::default();
    book.create_order(sell_request(105, 4, "alice"));
    book.delete_order(DeleteOrder { order_id: 42 });

    assert_eq!(book.asks.len(), 1);
    assert_eq!(book.asks[0].1.len(), 1);
}

#[test]
fn depth_sums_each_level() {
    let mut book = Orderbook::default();
    book.create_order(buy_request(100, 10, "alice"));
    book.create_order(buy_request(100, 5, "bob"));
    book.create_order(buy_request(90, 3, "carol"));
    book.create_order(sell_request(110, 8, "dave"));

    let depth = book.get_depth();
    assert_eq!(depth.bids.len(), 2);
    assert_eq!(depth.bids[0].price, 100);
    assert_eq!(depth.bids[0].quantity, 15);
    assert_eq!(depth.bids[1].price, 90);
    assert_eq!(depth.bids[1].quantity, 3);
    assert_eq!(depth.asks.len(), 1);
    assert_eq!(depth.asks[0].price, 110);
    assert_eq!(depth.asks[0].quantity, 8);

    let again = book.get_depth();
    assert_eq!(again.bids.len(), depth.bids.len());
    assert_eq!(again.bids[0], depth.bids[0]);
    assert_eq!(again.bids[1], depth.bids[1]);
    assert_eq!(again.asks[0], depth.asks[0]);
}
