//! A deterministic limit-order-book matching engine.
//!
//! An [`Exchange`] owns the [`OrderBook`] of one symbol together with the counters that
//! give out order ids, trade ids and logical timestamps, and runs price-time-priority
//! matching on every submission. A [`MultiExchange`] keeps one independent exchange per
//! [`Symbol`]. What each operation does is stated over the mathematical state of an
//! exchange in [`model`]; what holds of every reachable state is proved in
//! [`guarantees`].

pub mod book;
pub mod exchange;
pub mod guarantees;
pub mod ladder;
pub mod level;
pub mod matching;
pub mod model;
pub mod multi;
pub mod occurrence;
pub mod order;
pub mod parse;
pub mod results;
pub mod strategy;
pub mod sums;
pub mod symbol;
pub mod types;

pub use book::OrderBook;
pub use exchange::Exchange;
pub use ladder::{Ladder, LevelSnapshot};
pub use level::PriceLevel;
pub use multi::MultiExchange;
pub use order::{Order, StopOrder, Trade};
pub use parse::{parse_side, parse_symbol, parse_tif, side_str};
pub use results::{CancelResult, ModifyResult, StopSubmitResult, SubmitResult};
pub use strategy::EqualWeight;
pub use symbol::Symbol;
pub use types::{
    EngineError, OrderId, OrderStatus, Price, Side, StopStatus, TimeInForce, TradeId,
};
