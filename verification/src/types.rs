//! Primitive value types shared by every part of the engine.

use vstd::prelude::*;

verus! {

/// A price in hundredths of a currency unit. Prices are ordered by their integer value.
#[derive(Clone, Copy, Debug, PartialEq, Eq, Structural, Hash)]
pub struct Price(pub i64);

/// Identifier of an order, unique within one exchange.
#[derive(Clone, Copy, Debug, PartialEq, Eq, Structural, Hash)]
pub struct OrderId(pub u64);

/// Identifier of a trade, unique within one exchange.
#[derive(Clone, Copy, Debug, PartialEq, Eq, Structural, Hash)]
pub struct TradeId(pub u64);

/// The side of the book an order belongs to.
#[derive(Clone, Copy, Debug, PartialEq, Eq, Structural, Hash)]
pub enum Side {
    Buy,
    Sell,
}

/// How long an order stays eligible for execution.
#[derive(Clone, Copy, Debug, PartialEq, Eq, Structural, Hash)]
pub enum TimeInForce {
    /// Good-til-cancelled: an unmatched remainder rests on the book.
    GTC,
    /// Immediate-or-cancel: an unmatched remainder is discarded.
    IOC,
    /// Fill-or-kill: executes in full at once or not at all.
    FOK,
}

/// Lifecycle state of an order.
#[derive(Clone, Copy, Debug, PartialEq, Eq, Structural, Hash)]
pub enum OrderStatus {
    /// On the book with nothing executed yet.
    Resting,
    /// On the book with part of its quantity executed.
    PartiallyFilled,
    /// Executed in full; terminal.
    Filled,
    /// Withdrawn before full execution; terminal.
    Cancelled,
}

/// State of a stop order as reported when it is submitted.
#[derive(Clone, Copy, Debug, PartialEq, Eq, Structural, Hash)]
pub enum StopStatus {
    /// Dormant, waiting for a trade to reach its trigger price.
    Pending,
    /// The last traded price had already reached its trigger, so it entered the matching
    /// algorithm at once.
    Triggered,
}

/// The ways an operation of the engine can fail.
#[derive(Clone, Copy, Debug, PartialEq, Eq, Structural, Hash)]
pub enum EngineError {
    /// The order id is unknown, or the order is already filled or cancelled.
    OrderNotFound,
    /// A side or time-in-force string is not one of the accepted spellings.
    InvalidInput,
    /// A symbol is longer than [`crate::symbol::SYMBOL_CAPACITY`] bytes.
    SymbolTooLong,
}

impl Side {
    /// The other side of the book.
    pub open spec fn spec_opposite(self) -> Side {
        match self {
            Side::Buy => Side::Sell,
            Side::Sell => Side::Buy,
        }
    }

    /// The other side of the book.
    #[verifier::when_used_as_spec(spec_opposite)]
    pub fn opposite(self) -> (r: Side)
        ensures
            r == self.spec_opposite(),
    {
        match self {
            Side::Buy => Side::Sell,
            Side::Sell => Side::Buy,
        }
    }
}

/// Whether price `a` has priority over price `b` on the given side of the book:
/// higher bids come first, lower asks come first.
pub open spec fn better(side: Side, a: Price, b: Price) -> bool {
    match side {
        Side::Buy => a.0 > b.0,
        Side::Sell => a.0 < b.0,
    }
}

/// Whether an incoming order on `taker_side` with price bound `limit` may trade against a
/// resting order priced at `passive`. An order without a bound trades at any price.
pub open spec fn crosses(taker_side: Side, limit: Option<Price>, passive: Price) -> bool {
    match limit {
        None => true,
        Some(p) => match taker_side {
            Side::Buy => p.0 >= passive.0,
            Side::Sell => p.0 <= passive.0,
        },
    }
}

/// Executable form of [`better`].
pub fn is_better(side: Side, a: Price, b: Price) -> (r: bool)
    ensures
        r == better(side, a, b),
{
    match side {
        Side::Buy => a.0 > b.0,
        Side::Sell => a.0 < b.0,
    }
}

/// Executable form of [`crosses`].
pub fn can_cross(taker_side: Side, limit: Option<Price>, passive: Price) -> (r: bool)
    ensures
        r == crosses(taker_side, limit, passive),
{
    match limit {
        None => true,
        Some(p) => match taker_side {
            Side::Buy => p.0 >= passive.0,
            Side::Sell => p.0 <= passive.0,
        },
    }
}

} // verus!
