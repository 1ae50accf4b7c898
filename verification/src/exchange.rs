//! The matching engine of one symbol.

use vstd::prelude::*;
use crate::book::OrderBook;
use crate::ladder::{is_snapshot, LevelSnapshot};
use crate::matching::{can_match, lemma_match_step, run_match, MatchState, Taker};
use crate::model::{
    first_triggered, lemma_cancel, lemma_drop_stop, lemma_matched, lemma_place, lemma_submit,
    lemma_submit_stop, lemma_ticked, reaches, stop_index_of, ExchangeView, ID_LIMIT,
};
use crate::order::{Order, StopOrder, Trade};
use crate::results::{CancelResult, ModifyResult, StopSubmitResult, SubmitResult};
use crate::types::{
    can_cross, EngineError, OrderId, OrderStatus, Price, Side, StopStatus, TimeInForce,
    TradeId,
};

verus! {

/// Whether one of `trades` reaches the trigger of a stop on `side`.
fn any_reaches(trades: &Vec<Trade>, side: Side, trigger: Price) -> (b: bool)
    ensures
        b == exists|k: int|
            0 <= k < trades@.len() && reaches(side, trigger, (#[trigger] trades@[k]).price),
{
    let n = trades.len();
    let mut k: usize = 0;
    while k < n
        invariant
            k <= n,
            n == trades@.len(),
            forall|j: int| 0 <= j < k ==> !reaches(side, trigger, (#[trigger] trades@[j]).price),
        decreases n - k,
    {
        let traded = trades[k].price;
        let hit = match side {
            Side::Buy => traded.0 >= trigger.0,
            Side::Sell => traded.0 <= trigger.0,
        };
        if hit {
            return true;
        }
        k += 1;
    }
    false
}

/// A matching engine for one symbol: an order book, the counters that give out order
/// ids, trade ids and logical timestamps, and the stop orders waiting for their trigger.
#[derive(Clone, Debug)]
pub struct Exchange {
    book: OrderBook,
    next_order_id: u64,
    next_trade_id: u64,
    clock: u64,
    stops: Vec<StopOrder>,
    last_trade_price: Option<Price>,
}

impl View for Exchange {
    type V = ExchangeView;

    closed spec fn view(&self) -> ExchangeView {
        ExchangeView {
            book: self.book@,
            next_order_id: self.next_order_id,
            next_trade_id: self.next_trade_id,
            clock: self.clock,
            stops: self.stops@,
            last_trade_price: self.last_trade_price,
        }
    }
}

impl Exchange {
    /// The book is structurally sound and the state of the exchange is well formed.
    pub closed spec fn wf(&self) -> bool {
        self.book.wf() && self@.wf()
    }

    /// A well-formed exchange has a well-formed state.
    pub proof fn lemma_wf(&self)
        requires
            self.wf(),
        ensures
            self@.wf(),
    {
    }

    /// An exchange on which nothing has happened yet.
    pub fn new() -> (exchange: Exchange)
        ensures
            exchange.wf(),
            exchange@ == ExchangeView::initial(),
    {
        let exchange = Exchange {
            book: OrderBook::new(),
            next_order_id: 1,
            next_trade_id: 1,
            clock: 1,
            stops: Vec::new(),
            last_trade_price: None,
        };
        proof {
            assert(crate::ladder::level_sizes(Seq::empty()) =~= Seq::<nat>::empty());
            assert(exchange@.stops =~= Seq::<StopOrder>::empty());
        }
        exchange
    }

    /// Whether the exchange can still give out the ids that a submission may need.
    pub fn has_capacity(&self) -> (b: bool)
        ensures
            b == self@.has_capacity(),
    {
        self.next_order_id < ID_LIMIT - 1 && (self.stops.len() as u64) < ID_LIMIT - 1
            - self.next_order_id
    }

    /// The price of the most recent trade, if there has been one.
    pub fn last_trade_price(&self) -> (price: Option<Price>)
        ensures
            price == self@.last_trade_price,
    {
        self.last_trade_price
    }

    /// The highest bid price and the lowest ask price; each is absent while its side is
    /// empty. The exchange is left as it is.
    pub fn best_bid_ask(&self) -> (best: (Option<Price>, Option<Price>))
        ensures
            best == self@.book.best_bid_ask(),
    {
        self.book.best_bid_ask()
    }

    /// The levels of one side from the best price outward: all of them, or at most
    /// `depth` if a depth is given. The exchange is left as it is.
    pub fn snapshot(&self, side: Side, depth: Option<usize>) -> (snapshots: Vec<LevelSnapshot>)
        ensures
            is_snapshot(snapshots@, self@.book.side(side), depth),
    {
        self.book.snapshot(side, depth)
    }

    /// The resting order with the given id, if there is one.
    pub fn get_order(&self, id: OrderId) -> (order: Option<Order>)
        ensures
            order == self@.book.find(id),
    {
        match self.book.get(id) {
            Ok(order) => Some(order),
            Err(_) => None,
        }
    }

    /// The number of dormant stop orders.
    pub fn pending_stops(&self) -> (n: usize)
        ensures
            n == self@.stops.len(),
    {
        self.stops.len()
    }

    /// Enters one order into the matching algorithm.
    fn place(&mut self, side: Side, limit: Option<Price>, quantity: u64, tif: TimeInForce) -> (result:
        SubmitResult)
        requires
            old(self).wf(),
            old(self)@.next_order_id < ID_LIMIT,
            quantity > 0,
        ensures
            final(self).wf(),
            (final(self)@, result@) == old(self)@.place(side, limit, quantity, tif),
    {
        let id = OrderId(self.next_order_id);
        let timestamp = self.clock;
        let ghost start = self@;
        let ghost taker = Taker { side, id, timestamp };
        proof {
            lemma_matched(start, side, limit, quantity, tif);
            lemma_place(start, side, limit, quantity, tif);
        }
        if tif == TimeInForce::FOK && !self.book.can_fill(side, limit, quantity) {
            self.next_order_id = self.next_order_id + 1;
            self.clock = self.clock + 1;
            return SubmitResult {
                order_id: id,
                status: OrderStatus::Cancelled,
                filled_quantity: 0,
                resting_quantity: 0,
                cancelled_quantity: quantity,
                trades: Vec::new(),
            };
        }
        let mut trades: Vec<Trade> = Vec::new();
        let mut remaining: u64 = quantity;
        loop
            invariant
                self.book.wf(),
                self.next_order_id == start.next_order_id,
                self.clock == start.clock,
                self.stops@ == start.stops,
                self.last_trade_price == start.last_trade_price,
                start.next_order_id < ID_LIMIT,
                remaining <= quantity,
                taker == (Taker { side, id, timestamp }),
                run_match(
                    MatchState {
                        book: self.book@,
                        remaining,
                        trades: trades@,
                        next_trade_id: self.next_trade_id,
                    },
                    taker,
                    limit,
                ) == start.matched(side, limit, quantity),
                self.next_trade_id + self.book@.order_count() <= 2 * start.next_order_id + (
                if remaining == 0 {
                    1nat
                } else {
                    0nat
                }),
            ensures
                !can_match(self.book@, side, limit, remaining),
            decreases remaining,
        {
            if remaining == 0 {
                break ;
            }
            match self.book.peek_best_opposing(side) {
                None => {
                    break ;
                },
                Some(passive) => {
                    proof {
                        self.book.lemma_wf();
                        let opposing = self.book@.side(side.opposite());
                        assert(opposing[0].wf(side.opposite()));
                        assert(passive.live());
                    }
                    if !can_cross(side, limit, passive.price) {
                        break ;
                    }
                    let fill = if remaining <= passive.remaining_quantity {
                        remaining
                    } else {
                        passive.remaining_quantity
                    };
                    proof {
                        lemma_match_step(
                            MatchState {
                                book: self.book@,
                                remaining,
                                trades: trades@,
                                next_trade_id: self.next_trade_id,
                            },
                            taker,
                            limit,
                            0,
                        );
                    }
                    trades.push(
                        Trade {
                            id: TradeId(self.next_trade_id),
                            price: passive.price,
                            quantity: fill,
                            aggressor_side: side,
                            aggressor_order_id: id,
                            passive_order_id: passive.id,
                            timestamp,
                        },
                    );
                    self.book.pop_fill(side, fill);
                    self.next_trade_id = self.next_trade_id + 1;
                    remaining = remaining - fill;
                },
            }
        }
        let filled: u64 = quantity - remaining;
        let mut resting: u64 = 0;
        let mut cancelled: u64 = remaining;
        let mut status = if remaining == 0 {
            OrderStatus::Filled
        } else {
            OrderStatus::Cancelled
        };
        if remaining > 0 && tif == TimeInForce::GTC {
            match limit {
                Some(price) => {
                    let order = Order::with_remaining(
                        id,
                        side,
                        price,
                        quantity,
                        remaining,
                        tif,
                        timestamp,
                    );
                    self.book.insert(order);
                    resting = remaining;
                    cancelled = 0;
                    status = order.status;
                },
                None => {},
            }
        }
        if trades.len() > 0 {
            self.last_trade_price = Some(trades[trades.len() - 1].price);
        }
        self.next_order_id = self.next_order_id + 1;
        self.clock = self.clock + 1;
        SubmitResult {
            order_id: id,
            status,
            filled_quantity: filled,
            resting_quantity: resting,
            cancelled_quantity: cancelled,
            trades,
        }
    }

    /// The position of the earliest-submitted dormant stop that one of `trades` reaches.
    fn find_triggered(&self, trades: &Vec<Trade>) -> (found: Option<usize>)
        ensures
            match found {
                Some(i) => i < self@.stops.len() && i == first_triggered(
                    self@.stops,
                    trades@,
                    0,
                ),
                None => first_triggered(self@.stops, trades@, 0) == self@.stops.len(),
            },
    {
        let n = self.stops.len();
        let mut i: usize = 0;
        while i < n
            invariant
                i <= n,
                n == self.stops@.len(),
                first_triggered(self.stops@, trades@, 0) == first_triggered(
                    self.stops@,
                    trades@,
                    i as int,
                ),
            decreases n - i,
        {
            let stop = self.stops[i];
            if any_reaches(trades, stop.side, stop.trigger_price) {
                return Some(i);
            }
            i += 1;
        }
        None
    }

    /// Activates dormant stops for as long as one of the trades in `trades` reaches a
    /// trigger, adding the trades of each activated stop to the list.
    fn activate_stops(&mut self, trades: &mut Vec<Trade>)
        requires
            old(self).wf(),
            old(self)@.next_order_id + old(self)@.stops.len() <= ID_LIMIT,
        ensures
            final(self).wf(),
            (final(self)@, final(trades)@) == old(self)@.activate_stops(old(trades)@),
    {
        loop
            invariant
                self.wf(),
                self@.next_order_id + self@.stops.len() <= ID_LIMIT,
                self@.activate_stops(trades@) == old(self)@.activate_stops(old(trades)@),
            ensures
                first_triggered(self@.stops, trades@, 0) == self@.stops.len(),
            decreases self@.stops.len(),
        {
            match self.find_triggered(trades) {
                None => {
                    break ;
                },
                Some(i) => {
                    let ghost before = self@;
                    let ghost had = trades@;
                    proof {
                        lemma_drop_stop(before, i as int);
                    }
                    let stop = self.stops.remove(i);
                    let tif = match stop.limit_price {
                        Some(_) => stop.time_in_force,
                        None => TimeInForce::IOC,
                    };
                    proof {
                        lemma_place(self@, stop.side, stop.limit_price, stop.quantity, tif);
                    }
                    let mut entered = self.place(stop.side, stop.limit_price, stop.quantity, tif);
                    trades.append(&mut entered.trades);
                },
            }
        }
    }

    /// Enters an order, activates the stops that its trades reach, and reports on the
    /// order as it stands when the call returns.
    fn submit(&mut self, side: Side, limit: Option<Price>, quantity: u64, tif: TimeInForce) -> (result:
        SubmitResult)
        requires
            old(self).wf(),
            old(self)@.has_capacity(),
            quantity > 0,
        ensures
            final(self).wf(),
            (final(self)@, result@) == old(self)@.submit(side, limit, quantity, tif),
    {
        proof {
            lemma_place(self@, side, limit, quantity, tif);
            lemma_submit(self@, side, limit, quantity, tif);
        }
        let had_stops = self.stops.len() > 0;
        let mut result = self.place(side, limit, quantity, tif);
        if had_stops {
            self.activate_stops(&mut result.trades);
            if result.resting_quantity > 0 {
                let left = match self.book.get(result.order_id) {
                    Ok(order) => order.remaining_quantity,
                    Err(_) => 0,
                };
                result.filled_quantity = quantity - left;
                result.resting_quantity = left;
                result.status = if left == 0 {
                    OrderStatus::Filled
                } else if left == quantity {
                    OrderStatus::Resting
                } else {
                    OrderStatus::PartiallyFilled
                };
            }
        }
        result
    }

    /// Submits a limit order. It takes the next order id and logical timestamp, trades
    /// against the opposite side in price-time priority for as long as prices cross, and
    /// its remainder rests (good-til-cancelled) or is discarded (immediate-or-cancel). A
    /// fill-or-kill order that cannot execute in full at once trades nothing and is
    /// cancelled. Stops that the trades reach are then activated.
    pub fn submit_limit(
        &mut self,
        side: Side,
        price: Price,
        quantity: u64,
        tif: TimeInForce,
    ) -> (result: SubmitResult)
        requires
            old(self).wf(),
            old(self)@.has_capacity(),
            quantity > 0,
        ensures
            final(self).wf(),
            (final(self)@, result@) == old(self)@.submit_limit(side, price, quantity, tif),
    {
        self.submit(side, Some(price), quantity, tif)
    }

    /// Submits a market order: it trades at any price for as long as the opposite side
    /// holds orders, and whatever is left is cancelled. Stops that the trades reach are
    /// then activated.
    pub fn submit_market(&mut self, side: Side, quantity: u64) -> (result: SubmitResult)
        requires
            old(self).wf(),
            old(self)@.has_capacity(),
            quantity > 0,
        ensures
            final(self).wf(),
            (final(self)@, result@) == old(self)@.submit_market(side, quantity),
    {
        self.submit(side, None, quantity, TimeInForce::IOC)
    }

    /// Submits a stop order. It takes the next order id and logical timestamp. If the
    /// last traded price has already reached its trigger, it is activated at once;
    /// otherwise it stays dormant until a trade reaches the trigger. An activated stop
    /// enters the matching algorithm as a new market order, or as a new limit order if it
    /// has a limit price.
    pub fn submit_stop(
        &mut self,
        side: Side,
        trigger_price: Price,
        limit_price: Option<Price>,
        quantity: u64,
        tif: TimeInForce,
    ) -> (result: StopSubmitResult)
        requires
            old(self).wf(),
            old(self)@.has_capacity(),
            quantity > 0,
        ensures
            final(self).wf(),
            (final(self)@, result@) == old(self)@.submit_stop(
                side,
                trigger_price,
                limit_price,
                quantity,
                tif,
            ),
    {
        proof {
            lemma_submit_stop(self@, side, trigger_price, limit_price, quantity, tif);
            lemma_ticked(self@);
        }
        let id = OrderId(self.next_order_id);
        let timestamp = self.clock;
        let reached = match self.last_trade_price {
            Some(traded) => match side {
                Side::Buy => traded.0 >= trigger_price.0,
                Side::Sell => traded.0 <= trigger_price.0,
            },
            None => false,
        };
        self.next_order_id = self.next_order_id + 1;
        self.clock = self.clock + 1;
        if reached {
            let entering = match limit_price {
                Some(_) => tif,
                None => TimeInForce::IOC,
            };
            proof {
                lemma_place(self@, side, limit_price, quantity, entering);
            }
            let mut entered = self.place(side, limit_price, quantity, entering);
            self.activate_stops(&mut entered.trades);
            StopSubmitResult { order_id: id, status: StopStatus::Triggered, trades: entered.trades }
        } else {
            self.stops.push(
                StopOrder {
                    id,
                    side,
                    trigger_price,
                    limit_price,
                    quantity,
                    time_in_force: tif,
                    timestamp,
                },
            );
            StopSubmitResult { order_id: id, status: StopStatus::Pending, trades: Vec::new() }
        }
    }

    /// The position of the dormant stop with the given id.
    fn stop_position(&self, id: OrderId) -> (found: Option<usize>)
        ensures
            match found {
                Some(i) => i < self@.stops.len() && i == stop_index_of(self@.stops, id, 0),
                None => stop_index_of(self@.stops, id, 0) == self@.stops.len(),
            },
    {
        let n = self.stops.len();
        let mut i: usize = 0;
        while i < n
            invariant
                i <= n,
                n == self.stops@.len(),
                stop_index_of(self.stops@, id, 0) == stop_index_of(self.stops@, id, i as int),
            decreases n - i,
        {
            if self.stops[i].id == id {
                return Some(i);
            }
            i += 1;
        }
        None
    }

    /// Cancels the resting order or dormant stop with the given id, reporting the
    /// quantity that was still to execute. Fails with `OrderNotFound`, changing nothing,
    /// if the id is unknown or the order is already filled or cancelled.
    pub fn cancel(&mut self, id: OrderId) -> (result: CancelResult)
        requires
            old(self).wf(),
        ensures
            final(self).wf(),
            (final(self)@, result) == old(self)@.cancel(id),
    {
        proof {
            lemma_cancel(self@, id);
        }
        match self.book.remove(id) {
            Ok(order) => CancelResult {
                success: true,
                cancelled_quantity: order.remaining_quantity,
                error: None,
            },
            Err(_) => match self.stop_position(id) {
                Some(i) => {
                    let stop = self.stops.remove(i);
                    CancelResult { success: true, cancelled_quantity: stop.quantity, error: None }
                },
                None => CancelResult {
                    success: false,
                    cancelled_quantity: 0,
                    error: Some(EngineError::OrderNotFound),
                },
            },
        }
    }

    /// Replaces a resting order: cancels it, giving up its place in the queue, and
    /// submits a new limit order on the same side with the same time in force at the
    /// new price and quantity. Fails with `OrderNotFound`, changing nothing, if no order
    /// with the id rests on the book.
    pub fn modify(&mut self, id: OrderId, new_price: Price, new_quantity: u64) -> (result:
        ModifyResult)
        requires
            old(self).wf(),
            old(self)@.has_capacity(),
            new_quantity > 0,
        ensures
            final(self).wf(),
            (final(self)@, result@) == old(self)@.modify(id, new_price, new_quantity),
    {
        proof {
            lemma_cancel(self@, id);
        }
        match self.book.remove(id) {
            Ok(order) => {
                let replaced = self.submit(
                    order.side,
                    Some(new_price),
                    new_quantity,
                    order.time_in_force,
                );
                ModifyResult {
                    success: true,
                    old_order_id: id,
                    new_order_id: Some(replaced.order_id),
                    cancelled_quantity: order.remaining_quantity,
                    trades: replaced.trades,
                    error: None,
                }
            },
            Err(_) => ModifyResult {
                success: false,
                old_order_id: id,
                new_order_id: None,
                cancelled_quantity: 0,
                trades: Vec::new(),
                error: Some(EngineError::OrderNotFound),
            },
        }
    }
}

} // verus!
