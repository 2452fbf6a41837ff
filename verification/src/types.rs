//! Domain value types of the matching engine.

use vstd::prelude::*;

verus! {

/// Side of the book an order rests on or takes from.
#[derive(Copy, Clone, PartialEq, Eq, Structural, Debug)]
pub enum TradeSide {
    Buy,
    Sell,
}

/// Kind of order; only limit orders are defined.
#[derive(Copy, Clone, PartialEq, Eq, Structural, Debug)]
pub enum OrderType {
    Limit,
}

/// A price, as an integer count of the market's minimal price increment.
/// Keeping prices integral makes every comparison the engine performs exact.
pub type Price = u64;

/// A quantity, as an integer count of the market's minimal size increment.
pub type Quantity = u64;

/// A limit order. `trade_quantity` is the remaining (unfilled) quantity; it
/// only ever decreases while the order sits in a book.
#[derive(Copy, Clone, PartialEq, Eq, Structural, Debug)]
pub struct Order {
    pub order_id: u64,
    pub trader_id: u64,
    pub market_id: u64,
    pub trade_side: TradeSide,
    pub price: Price,
    pub trade_quantity: Quantity,
    pub order_type: OrderType,
    pub timestamp: u64,
}

/// Identifier of a single execution, unique for the lifetime of a book.
#[derive(Copy, Clone, PartialEq, Eq, Structural, Debug)]
pub struct TradeID(pub u64);

/// An execution between a resting (maker) order and an incoming (taker)
/// order. The execution price is the maker's resting price and the timestamp
/// is the taker's.
#[derive(Copy, Clone, PartialEq, Eq, Structural, Debug)]
pub struct Trade {
    pub trade_id: TradeID,
    pub market_id: u64,
    pub maker_order_id: u64,
    pub taker_order_id: u64,
    pub maker_user_id: u64,
    pub taker_user_id: u64,
    pub quantity: Quantity,
    pub price: Price,
    pub timestamp: u64,
}

/// One lifecycle event emitted by a book command.
#[derive(Copy, Clone, PartialEq, Eq, Structural, Debug)]
pub enum TradeEvent {
    OrderPlaced {
        order_id: u64,
        trader_id: u64,
        market_id: u64,
        side: TradeSide,
        price: Price,
        quantity: Quantity,
        order_type: OrderType,
        timestamp: u64,
    },
    OrderTraded(Trade),
    OrderCancelled { order_id: u64, timestamp: u64 },
}

/// Why a command was rejected. Rejections happen before any state
/// mutation, and a rejected command leaves the book untouched. No
/// defensive internal-inconsistency variant exists: the book invariant is
/// maintained by proof in every operation.
#[derive(Copy, Clone, PartialEq, Eq, Structural, Debug)]
pub enum OrderError {
    /// The order had a zero price or a zero quantity.
    InvalidOrder,
    /// The cancellation target is not resting in the book.
    OrderNotFound,
}

impl Order {
    /// An order the engine accepts: positive price and positive quantity.
    pub open spec fn valid(self) -> bool {
        self.price > 0 && self.trade_quantity > 0
    }

    /// Builds an order, rejecting a zero price or quantity with
    /// [`OrderError::InvalidOrder`].
    pub fn new(
        order_id: u64,
        trader_id: u64,
        market_id: u64,
        trade_side: TradeSide,
        price: Price,
        trade_quantity: Quantity,
        order_type: OrderType,
        timestamp: u64,
    ) -> (r: Result<Order, OrderError>)
        ensures
            price > 0 && trade_quantity > 0 ==> r == Ok::<Order, OrderError>(
                Order {
                    order_id,
                    trader_id,
                    market_id,
                    trade_side,
                    price,
                    trade_quantity,
                    order_type,
                    timestamp,
                },
            ),
            !(price > 0 && trade_quantity > 0) ==> r == Err::<Order, OrderError>(
                OrderError::InvalidOrder,
            ),
    {
        if price > 0 && trade_quantity > 0 {
            Ok(
                Order {
                    order_id,
                    trader_id,
                    market_id,
                    trade_side,
                    price,
                    trade_quantity,
                    order_type,
                    timestamp,
                },
            )
        } else {
            Err(OrderError::InvalidOrder)
        }
    }
}

} // verus!
