//! Orders, trades and dormant stop orders.

use vstd::prelude::*;
use crate::types::{OrderId, OrderStatus, Price, Side, TimeInForce, TradeId};

verus! {

/// One order and its fill state.
#[derive(Clone, Copy, Debug, PartialEq, Eq, Structural)]
pub struct Order {
    pub id: OrderId,
    pub side: Side,
    pub price: Price,
    pub original_quantity: u64,
    pub remaining_quantity: u64,
    pub filled_quantity: u64,
    pub status: OrderStatus,
    pub time_in_force: TimeInForce,
    /// Logical sequence number of the submission that created the order.
    pub timestamp: u64,
}

/// One execution between an incoming order and a resting order.
#[derive(Clone, Copy, Debug, PartialEq, Eq, Structural)]
pub struct Trade {
    pub id: TradeId,
    /// Always the price of the resting order.
    pub price: Price,
    pub quantity: u64,
    pub aggressor_side: Side,
    pub aggressor_order_id: OrderId,
    pub passive_order_id: OrderId,
    /// Logical sequence number of the submission that caused the trade.
    pub timestamp: u64,
}

/// A stop order waiting outside the book for a trade to reach its trigger price.
#[derive(Clone, Copy, Debug, PartialEq, Eq, Structural)]
pub struct StopOrder {
    pub id: OrderId,
    pub side: Side,
    pub trigger_price: Price,
    /// Price bound of the order entered on activation; `None` enters a market order.
    pub limit_price: Option<Price>,
    pub quantity: u64,
    /// Applies to the limit order entered on activation; a market order is always
    /// immediate-or-cancel.
    pub time_in_force: TimeInForce,
    pub timestamp: u64,
}

/// The status that goes with a pair of counters: nothing left means filled, otherwise the
/// order is resting until its first execution and partially filled after it.
pub open spec fn status_for(filled: u64, remaining: u64) -> OrderStatus {
    if remaining == 0 {
        OrderStatus::Filled
    } else if filled == 0 {
        OrderStatus::Resting
    } else {
        OrderStatus::PartiallyFilled
    }
}

impl Order {
    /// The counters add up to the original quantity and the status agrees with them.
    /// A cancelled order has no record: cancellation removes it from the book.
    pub open spec fn wf(self) -> bool {
        &&& self.filled_quantity + self.remaining_quantity == self.original_quantity
        &&& self.status == status_for(self.filled_quantity, self.remaining_quantity)
    }

    /// A well-formed order that still has quantity to execute.
    pub open spec fn live(self) -> bool {
        self.wf() && self.remaining_quantity > 0
    }

    /// The order after `quantity` more units have executed.
    pub open spec fn filled_by(self, quantity: u64) -> Order {
        Order {
            remaining_quantity: (self.remaining_quantity - quantity) as u64,
            filled_quantity: (self.filled_quantity + quantity) as u64,
            status: status_for(
                (self.filled_quantity + quantity) as u64,
                (self.remaining_quantity - quantity) as u64,
            ),
            ..self
        }
    }

    /// The order as it is when `remaining` of `quantity` units are still to execute.
    pub open spec fn spec_with_remaining(
        id: OrderId,
        side: Side,
        price: Price,
        quantity: u64,
        remaining: u64,
        time_in_force: TimeInForce,
        timestamp: u64,
    ) -> Order {
        Order {
            id,
            side,
            price,
            original_quantity: quantity,
            remaining_quantity: remaining,
            filled_quantity: (quantity - remaining) as u64,
            status: status_for((quantity - remaining) as u64, remaining),
            time_in_force,
            timestamp,
        }
    }

    /// A fresh order with nothing executed.
    pub fn new(
        id: OrderId,
        side: Side,
        price: Price,
        quantity: u64,
        time_in_force: TimeInForce,
        timestamp: u64,
    ) -> (order: Order)
        requires
            quantity > 0,
        ensures
            order == Order::spec_with_remaining(
                id,
                side,
                price,
                quantity,
                quantity,
                time_in_force,
                timestamp,
            ),
            order.live(),
            order.status == OrderStatus::Resting,
    {
        Order::with_remaining(id, side, price, quantity, quantity, time_in_force, timestamp)
    }

    /// An order of `quantity` units of which `remaining` are still to execute.
    #[verifier::when_used_as_spec(spec_with_remaining)]
    pub fn with_remaining(
        id: OrderId,
        side: Side,
        price: Price,
        quantity: u64,
        remaining: u64,
        time_in_force: TimeInForce,
        timestamp: u64,
    ) -> (order: Order)
        requires
            remaining <= quantity,
        ensures
            order == Order::spec_with_remaining(
                id,
                side,
                price,
                quantity,
                remaining,
                time_in_force,
                timestamp,
            ),
            order.wf(),
    {
        let filled: u64 = quantity - remaining;
        let status = if remaining == 0 {
            OrderStatus::Filled
        } else if filled == 0 {
            OrderStatus::Resting
        } else {
            OrderStatus::PartiallyFilled
        };
        Order {
            id,
            side,
            price,
            original_quantity: quantity,
            remaining_quantity: remaining,
            filled_quantity: filled,
            status,
            time_in_force,
            timestamp,
        }
    }

    /// Executes `quantity` units of the order.
    pub fn fill(&mut self, quantity: u64)
        requires
            old(self).wf(),
            0 < quantity <= old(self).remaining_quantity,
        ensures
            *final(self) == old(self).filled_by(quantity),
            final(self).wf(),
            final(self).filled_quantity + final(self).remaining_quantity == old(
                self,
            ).original_quantity,
    {
        self.remaining_quantity = self.remaining_quantity - quantity;
        self.filled_quantity = self.filled_quantity + quantity;
        self.status = if self.remaining_quantity == 0 {
            OrderStatus::Filled
        } else {
            OrderStatus::PartiallyFilled
        };
    }

    /// Whether the order still has quantity to execute.
    pub fn is_active(&self) -> (r: bool)
        ensures
            r == (self.remaining_quantity > 0),
    {
        self.remaining_quantity > 0
    }
}

} // verus!
