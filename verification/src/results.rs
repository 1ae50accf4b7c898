//! The values returned by the operations of an exchange.

use vstd::prelude::*;
use crate::order::Trade;
use crate::types::{EngineError, OrderId, OrderStatus, StopStatus};

verus! {

/// Outcome of submitting a limit or market order.
#[derive(Clone, Debug, PartialEq, Eq)]
pub struct SubmitResult {
    pub order_id: OrderId,
    /// State of the order when the call returns.
    pub status: OrderStatus,
    /// Quantity of the order that has executed when the call returns.
    pub filled_quantity: u64,
    /// Quantity of the order that is on the book when the call returns.
    pub resting_quantity: u64,
    /// Quantity that will never execute.
    pub cancelled_quantity: u64,
    /// Every trade generated during the call, oldest first: the order's own trades,
    /// then those of stop orders that these trades activated.
    pub trades: Vec<Trade>,
}

/// The mathematical content of a [`SubmitResult`].
pub struct SubmitView {
    pub order_id: OrderId,
    pub status: OrderStatus,
    pub filled_quantity: u64,
    pub resting_quantity: u64,
    pub cancelled_quantity: u64,
    pub trades: Seq<Trade>,
}

impl View for SubmitResult {
    type V = SubmitView;

    open spec fn view(&self) -> SubmitView {
        SubmitView {
            order_id: self.order_id,
            status: self.status,
            filled_quantity: self.filled_quantity,
            resting_quantity: self.resting_quantity,
            cancelled_quantity: self.cancelled_quantity,
            trades: self.trades@,
        }
    }
}

/// Outcome of cancelling an order.
#[derive(Clone, Copy, Debug, PartialEq, Eq, Structural)]
pub struct CancelResult {
    pub success: bool,
    /// Quantity that was still to execute when the order was cancelled.
    pub cancelled_quantity: u64,
    pub error: Option<EngineError>,
}

/// Outcome of replacing an order.
#[derive(Clone, Debug, PartialEq, Eq)]
pub struct ModifyResult {
    pub success: bool,
    pub old_order_id: OrderId,
    /// Id of the replacement order; absent if the original was not found.
    pub new_order_id: Option<OrderId>,
    /// Quantity of the original order displaced by the replacement.
    pub cancelled_quantity: u64,
    /// Every trade generated by submitting the replacement.
    pub trades: Vec<Trade>,
    pub error: Option<EngineError>,
}

/// The mathematical content of a [`ModifyResult`].
pub struct ModifyView {
    pub success: bool,
    pub old_order_id: OrderId,
    pub new_order_id: Option<OrderId>,
    pub cancelled_quantity: u64,
    pub trades: Seq<Trade>,
    pub error: Option<EngineError>,
}

impl View for ModifyResult {
    type V = ModifyView;

    open spec fn view(&self) -> ModifyView {
        ModifyView {
            success: self.success,
            old_order_id: self.old_order_id,
            new_order_id: self.new_order_id,
            cancelled_quantity: self.cancelled_quantity,
            trades: self.trades@,
            error: self.error,
        }
    }
}

/// Outcome of submitting a stop order.
#[derive(Clone, Debug, PartialEq, Eq)]
pub struct StopSubmitResult {
    pub order_id: OrderId,
    /// Whether the stop went dormant or was activated at once.
    pub status: StopStatus,
    /// Every trade generated during the call, oldest first; empty for a stop that went
    /// dormant.
    pub trades: Vec<Trade>,
}

/// The mathematical content of a [`StopSubmitResult`].
pub struct StopSubmitView {
    pub order_id: OrderId,
    pub status: StopStatus,
    pub trades: Seq<Trade>,
}

impl View for StopSubmitResult {
    type V = StopSubmitView;

    open spec fn view(&self) -> StopSubmitView {
        StopSubmitView { order_id: self.order_id, status: self.status, trades: self.trades@ }
    }
}

} // verus!
