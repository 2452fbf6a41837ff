//! A central limit order book (CLOB) matching engine.
//!
//! The book keeps two-sided resting liquidity for one market and matches
//! incoming limit orders against it under price-time priority, returning the
//! ordered stream of lifecycle events (placement, trade, cancellation) that
//! each command produces.
//!
//! Prices and quantities are integer counts of the market's minimal price and
//! size increments, so every comparison, addition and subtraction the engine
//! performs is exact; conversion from any external decimal representation is
//! the caller's concern.

pub mod book;
pub mod engine;
pub mod laws;
pub mod levels;
pub mod simple;
pub mod types;

pub use book::OrderBook;
pub use book::PriceLevel;
pub use engine::match_buy_order;
pub use engine::match_sell_order;
pub use engine::place_order;
pub use engine::BookDepth;
pub use engine::ExecutionEngine;
pub use simple::CreateOrder;
pub use simple::DeleteOrder;
pub use simple::Depth;
pub use simple::DepthResponse;
pub use simple::OpenOrder;
pub use simple::Orderbook;
pub use simple::Side;
pub use types::Order;
pub use types::OrderError;
pub use types::OrderType;
pub use types::Price;
pub use types::Quantity;
pub use types::Trade;
pub use types::TradeEvent;
pub use types::TradeID;
pub use types::TradeSide;
