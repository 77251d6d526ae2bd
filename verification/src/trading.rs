//! Order-book data types and the matching engine.
pub mod book;
pub mod columns;
pub mod instrument;
pub mod ladder;
pub mod matching;
pub mod price;
pub mod tools;

pub use book::{BookEntry, OrderBook};
pub use columns::{PriceColumns, Quote};
pub use instrument::{Instrument, InstrumentType};
pub use ladder::{PriceLevel, PriceRow};
pub use price::Price;
pub use tools::{
    CurrentHoldingPerPrice, MatchedOrders, MininalOrder, Order, OrderStatus, TradeRequest,
};
