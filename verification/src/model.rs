//! The exchange as a state machine: what each operation does to the state of an
//! exchange and what it reports.

use vstd::prelude::*;
use crate::book::{lemma_book_found, lemma_book_insert, lemma_book_remove, BookView};
use crate::ladder::available;
use crate::matching::{lemma_run_match, run_match, MatchState, Taker};
use crate::occurrence::{lemma_absent_holds_nothing, lemma_none_at_or_above};
use crate::order::{status_for, Order, StopOrder, Trade};
use crate::results::{CancelResult, ModifyView, StopSubmitView, SubmitView};
use crate::types::{
    crosses, EngineError, OrderId, OrderStatus, Price, Side, StopStatus, TimeInForce,
};

verus! {

/// Order ids stay below this limit, which leaves room for twice as many trade ids.
pub const ID_LIMIT: u64 = 0x8000_0000_0000_0000;

/// The mathematical content of an exchange.
pub struct ExchangeView {
    pub book: BookView,
    /// Id that the next submission receives.
    pub next_order_id: u64,
    /// Id that the next trade receives.
    pub next_trade_id: u64,
    /// Logical timestamp that the next submission receives.
    pub clock: u64,
    /// Dormant stop orders in order of submission.
    pub stops: Seq<StopOrder>,
    /// Price of the most recent trade, if there has been one.
    pub last_trade_price: Option<Price>,
}

/// Whether a trade at price `traded` activates a stop on `side` with the given trigger:
/// a buy stop is activated at or above its trigger, a sell stop at or below it.
pub open spec fn reaches(side: Side, trigger: Price, traded: Price) -> bool {
    match side {
        Side::Buy => traded.0 >= trigger.0,
        Side::Sell => traded.0 <= trigger.0,
    }
}

/// Whether one of `trades` activates `stop`.
pub open spec fn stop_triggered(stop: StopOrder, trades: Seq<Trade>) -> bool {
    exists|k: int| 0 <= k < trades.len() && reaches(
        stop.side,
        stop.trigger_price,
        (#[trigger] trades[k]).price,
    )
}

/// The index of the first stop at or after `from` that one of `trades` activates; the
/// number of stops if there is none.
pub open spec fn first_triggered(stops: Seq<StopOrder>, trades: Seq<Trade>, from: int) -> int
    decreases stops.len() - from,
{
    if 0 <= from < stops.len() && !stop_triggered(stops[from], trades) {
        first_triggered(stops, trades, from + 1)
    } else {
        from
    }
}

/// The index of the first stop at or after `from` that carries `id`; the number of
/// stops if there is none.
pub open spec fn stop_index_of(stops: Seq<StopOrder>, id: OrderId, from: int) -> int
    decreases stops.len() - from,
{
    if 0 <= from < stops.len() && stops[from].id != id {
        stop_index_of(stops, id, from + 1)
    } else {
        from
    }
}

/// The time in force of the order that a stop enters on activation: a stop without a
/// limit price enters a market order, which is immediate-or-cancel.
pub open spec fn activation_tif(stop: StopOrder) -> TimeInForce {
    match stop.limit_price {
        Some(_) => stop.time_in_force,
        None => TimeInForce::IOC,
    }
}

/// The price of the most recent trade after `trades` have been made: that of the last of
/// them, or the price before if there are none.
pub open spec fn last_price(trades: Seq<Trade>, before: Option<Price>) -> Option<Price> {
    if trades.len() > 0 {
        Some(trades.last().price)
    } else {
        before
    }
}

/// The report on an order of `quantity` units of which `cancelled` were discarded and
/// `resting` are on the book; the rest has executed. An order with nothing on the book is
/// filled unless part of it was discarded, which makes it cancelled.
pub open spec fn report(
    order_id: OrderId,
    quantity: u64,
    cancelled: u64,
    resting: u64,
    trades: Seq<Trade>,
) -> SubmitView {
    let filled = (quantity - cancelled - resting) as u64;
    SubmitView {
        order_id,
        status: if resting > 0 {
            status_for(filled, resting)
        } else if cancelled > 0 {
            OrderStatus::Cancelled
        } else {
            OrderStatus::Filled
        },
        filled_quantity: filled,
        resting_quantity: resting,
        cancelled_quantity: cancelled,
        trades,
    }
}

/// How much of an order is on the book: the remaining quantity of the order found under
/// its id, and nothing if none is found.
pub open spec fn still_resting(book: BookView, id: OrderId) -> u64 {
    match book.find(id) {
        Some(order) => order.remaining_quantity,
        None => 0,
    }
}

impl ExchangeView {
    /// The state of an exchange on which nothing has happened yet.
    pub open spec fn initial() -> ExchangeView {
        ExchangeView {
            book: BookView::empty(),
            next_order_id: 1,
            next_trade_id: 1,
            clock: 1,
            stops: Seq::empty(),
            last_trade_price: None,
        }
    }

    /// The book is well formed, every resting order and dormant stop was given its id by
    /// this exchange, no two of them share an id, the dormant stops are in order of
    /// submission, the clock has ticked once per id, and the trades generated so far
    /// plus the orders still resting number at most two per id.
    pub open spec fn wf(self) -> bool {
        &&& self.book.wf()
        &&& self.book.ids_below(self.next_order_id)
        &&& self.clock == self.next_order_id
        &&& 1 <= self.next_order_id
        &&& 1 <= self.next_trade_id
        &&& self.next_trade_id + self.book.order_count() <= 2 * self.next_order_id
        &&& forall|i: int|
            0 <= i < self.stops.len() ==> (#[trigger] self.stops[i]).quantity > 0
                && self.stops[i].id.0 < self.next_order_id && self.book.occurrences(
                self.stops[i].id,
            ) == 0
        &&& forall|i: int, j: int|
            0 <= i < j < self.stops.len() ==> (#[trigger] self.stops[i]).id.0 < (
            #[trigger] self.stops[j]).id.0
    }

    /// The exchange can give an id to a new submission, to the order that it enters if
    /// it is a stop activated at once, and to every dormant stop that may be activated
    /// in turn.
    pub open spec fn has_capacity(self) -> bool {
        self.next_order_id + self.stops.len() + 1 < ID_LIMIT
    }

    /// The exchange after it has given out the next id and timestamp.
    pub open spec fn ticked(self) -> ExchangeView {
        ExchangeView {
            next_order_id: (self.next_order_id + 1) as u64,
            clock: (self.clock + 1) as u64,
            ..self
        }
    }

    /// The state in which matching ends for an incoming order that takes the next id and
    /// timestamp.
    pub open spec fn matched(self, side: Side, limit: Option<Price>, quantity: u64) -> MatchState {
        run_match(
            MatchState {
                book: self.book,
                remaining: quantity,
                trades: Seq::empty(),
                next_trade_id: self.next_trade_id,
            },
            Taker { side, id: OrderId(self.next_order_id), timestamp: self.clock },
            limit,
        )
    }

    /// Enters one order into the matching algorithm: assigns it the next id and
    /// timestamp, rejects a fill-or-kill order that cannot execute in full, matches, and
    /// disposes of the remainder by time in force. Stops are not looked at.
    pub open spec fn place(
        self,
        side: Side,
        limit: Option<Price>,
        quantity: u64,
        tif: TimeInForce,
    ) -> (ExchangeView, SubmitView) {
        let id = OrderId(self.next_order_id);
        let ticked = self.ticked();
        if tif == TimeInForce::FOK && available(
            self.book.side(side.opposite()),
            side,
            limit,
            0,
        ) < quantity {
            (ticked, report(id, quantity, quantity, 0, Seq::empty()))
        } else {
            let end = self.matched(side, limit, quantity);
            let rests = end.remaining > 0 && tif == TimeInForce::GTC && limit is Some;
            (
                ExchangeView {
                    book: if rests {
                        end.book.insert(
                            Order::spec_with_remaining(
                                id,
                                side,
                                limit.unwrap(),
                                quantity,
                                end.remaining,
                                tif,
                                self.clock,
                            ),
                        )
                    } else {
                        end.book
                    },
                    next_trade_id: end.next_trade_id,
                    last_trade_price: last_price(end.trades, self.last_trade_price),
                    ..ticked
                },
                if rests {
                    report(id, quantity, 0, end.remaining, end.trades)
                } else {
                    report(id, quantity, end.remaining, 0, end.trades)
                },
            )
        }
    }

    /// Activates dormant stops for as long as one of the trades generated so far reaches
    /// a trigger. Each round takes the earliest-submitted activated stop out of the
    /// dormant list and enters it as a new order, whose trades join the list.
    pub open spec fn activate_stops(self, trades: Seq<Trade>) -> (ExchangeView, Seq<Trade>)
        decreases self.stops.len(),
    {
        let i = first_triggered(self.stops, trades, 0);
        if 0 <= i < self.stops.len() {
            let stop = self.stops[i];
            let entered = (ExchangeView { stops: self.stops.remove(i), ..self }).place(
                stop.side,
                stop.limit_price,
                stop.quantity,
                activation_tif(stop),
            );
            entered.0.activate_stops(trades + entered.1.trades)
        } else {
            (self, trades)
        }
    }

    /// Enters an order, activates the stops that its trades reach, and reports on the
    /// order as it stands when all of that is done: with every trade of the call, and
    /// with as resting quantity what is still on the book then.
    pub open spec fn submit(
        self,
        side: Side,
        limit: Option<Price>,
        quantity: u64,
        tif: TimeInForce,
    ) -> (ExchangeView, SubmitView) {
        let placed = self.place(side, limit, quantity, tif);
        let settled = placed.0.activate_stops(placed.1.trades);
        (
            settled.0,
            report(
                placed.1.order_id,
                quantity,
                placed.1.cancelled_quantity,
                still_resting(settled.0.book, placed.1.order_id),
                settled.1,
            ),
        )
    }

    /// Submits a limit order.
    pub open spec fn submit_limit(
        self,
        side: Side,
        price: Price,
        quantity: u64,
        tif: TimeInForce,
    ) -> (ExchangeView, SubmitView) {
        self.submit(side, Some(price), quantity, tif)
    }

    /// Submits a market order: no price bound, immediate-or-cancel.
    pub open spec fn submit_market(self, side: Side, quantity: u64) -> (ExchangeView, SubmitView) {
        self.submit(side, None, quantity, TimeInForce::IOC)
    }

    /// Whether a stop submitted now would be activated at once: there has been a trade,
    /// and the price of the most recent one reaches the trigger.
    pub open spec fn already_reached(self, side: Side, trigger_price: Price) -> bool {
        match self.last_trade_price {
            Some(traded) => reaches(side, trigger_price, traded),
            None => false,
        }
    }

    /// Submits a stop order, which takes the next id and timestamp. If the last traded
    /// price has already reached its trigger, it is activated at once: it enters the
    /// matching algorithm as a new order, and the stops that its trades reach are
    /// activated in turn. Otherwise it joins the dormant stops behind those submitted
    /// earlier.
    pub open spec fn submit_stop(
        self,
        side: Side,
        trigger_price: Price,
        limit_price: Option<Price>,
        quantity: u64,
        tif: TimeInForce,
    ) -> (ExchangeView, StopSubmitView) {
        let id = OrderId(self.next_order_id);
        let stop = StopOrder {
            id,
            side,
            trigger_price,
            limit_price,
            quantity,
            time_in_force: tif,
            timestamp: self.clock,
        };
        if self.already_reached(side, trigger_price) {
            let entered = self.ticked().place(side, limit_price, quantity, activation_tif(stop));
            let settled = entered.0.activate_stops(entered.1.trades);
            (
                settled.0,
                StopSubmitView { order_id: id, status: StopStatus::Triggered, trades: settled.1 },
            )
        } else {
            (
                ExchangeView { stops: self.stops.push(stop), ..self.ticked() },
                StopSubmitView { order_id: id, status: StopStatus::Pending, trades: Seq::empty() },
            )
        }
    }

    /// Cancels the resting order or dormant stop with the given id.
    pub open spec fn cancel(self, id: OrderId) -> (ExchangeView, CancelResult) {
        match self.book.find(id) {
            Some(order) => (
                ExchangeView { book: self.book.remove(id), ..self },
                CancelResult {
                    success: true,
                    cancelled_quantity: order.remaining_quantity,
                    error: None,
                },
            ),
            None => {
                let i = stop_index_of(self.stops, id, 0);
                if 0 <= i < self.stops.len() {
                    (
                        ExchangeView { stops: self.stops.remove(i), ..self },
                        CancelResult {
                            success: true,
                            cancelled_quantity: self.stops[i].quantity,
                            error: None,
                        },
                    )
                } else {
                    (
                        self,
                        CancelResult {
                            success: false,
                            cancelled_quantity: 0,
                            error: Some(EngineError::OrderNotFound),
                        },
                    )
                }
            },
        }
    }

    /// Replaces a resting order: takes it off the book and submits a new limit order on
    /// the same side with the same time in force at the new price and quantity.
    pub open spec fn modify(self, id: OrderId, new_price: Price, new_quantity: u64) -> (
        ExchangeView,
        ModifyView,
    ) {
        match self.book.find(id) {
            Some(order) => {
                let replaced = (ExchangeView { book: self.book.remove(id), ..self }).submit_limit(
                    order.side,
                    new_price,
                    new_quantity,
                    order.time_in_force,
                );
                (
                    replaced.0,
                    ModifyView {
                        success: true,
                        old_order_id: id,
                        new_order_id: Some(replaced.1.order_id),
                        cancelled_quantity: order.remaining_quantity,
                        trades: replaced.1.trades,
                        error: None,
                    },
                )
            },
            None => (
                self,
                ModifyView {
                    success: false,
                    old_order_id: id,
                    new_order_id: None,
                    cancelled_quantity: 0,
                    trades: Seq::empty(),
                    error: Some(EngineError::OrderNotFound),
                },
            ),
        }
    }
}

/// Where matching leaves an exchange: the book is still well formed, the incoming order
/// cannot trade any further, and a remainder may rest at its limit price without crossing.
pub proof fn lemma_matched(
    st: ExchangeView,
    side: Side,
    limit: Option<Price>,
    quantity: u64,
    tif: TimeInForce,
)
    requires
        st.wf(),
        st.next_order_id < ID_LIMIT,
    ensures
        st.matched(side, limit, quantity).book.wf(),
        st.matched(side, limit, quantity).book.ids_below(st.next_order_id),
        st.matched(side, limit, quantity).remaining <= quantity,
        st.matched(side, limit, quantity).next_trade_id == st.next_trade_id + st.matched(
            side,
            limit,
            quantity,
        ).trades.len(),
        st.matched(side, limit, quantity).next_trade_id + st.matched(
            side,
            limit,
            quantity,
        ).book.order_count() <= 2 * st.next_order_id + (if st.matched(
            side,
            limit,
            quantity,
        ).remaining == 0 {
            1nat
        } else {
            0nat
        }),
        st.matched(side, limit, quantity).remaining > 0 && limit is Some ==> {
            let order = Order::spec_with_remaining(
                OrderId(st.next_order_id),
                side,
                limit.unwrap(),
                quantity,
                st.matched(side, limit, quantity).remaining,
                tif,
                st.clock,
            );
            order.live() && st.matched(side, limit, quantity).book.accepts(order)
        },
        forall|id: OrderId|
            #[trigger] st.matched(side, limit, quantity).book.occurrences(id)
                <= st.book.occurrences(id),
        forall|id: OrderId|
            #[trigger] st.matched(side, limit, quantity).book.held(id) <= st.book.held(id),
{
    let start = MatchState {
        book: st.book,
        remaining: quantity,
        trades: Seq::empty(),
        next_trade_id: st.next_trade_id,
    };
    let taker = Taker { side, id: OrderId(st.next_order_id), timestamp: st.clock };
    lemma_run_match(start, taker, limit, st.next_order_id);
    let end = st.matched(side, limit, quantity);
    if end.remaining > 0 && limit is Some {
        let opposing = end.book.side(side.opposite());
        if opposing.len() > 0 {
            assert(opposing[0].wf(side.opposite()));
            assert(opposing[0].orders[0].live());
        }
    }
}

/// Entering an order keeps the exchange well formed, uses up exactly one id and one tick,
/// gives each trade one id, leaves the dormant stops alone, and accounts for every unit
/// of the order as filled, resting or cancelled.
pub proof fn lemma_place(
    st: ExchangeView,
    side: Side,
    limit: Option<Price>,
    quantity: u64,
    tif: TimeInForce,
)
    requires
        st.wf(),
        st.next_order_id < ID_LIMIT,
        quantity > 0,
    ensures
        st.place(side, limit, quantity, tif).0.wf(),
        st.place(side, limit, quantity, tif).0.next_order_id == st.next_order_id + 1,
        st.place(side, limit, quantity, tif).0.clock == st.clock + 1,
        st.place(side, limit, quantity, tif).0.stops == st.stops,
        st.place(side, limit, quantity, tif).0.next_trade_id == st.next_trade_id + st.place(
            side,
            limit,
            quantity,
            tif,
        ).1.trades.len(),
        st.place(side, limit, quantity, tif).1.order_id == OrderId(st.next_order_id),
        st.place(side, limit, quantity, tif).1.filled_quantity + st.place(
            side,
            limit,
            quantity,
            tif,
        ).1.resting_quantity + st.place(side, limit, quantity, tif).1.cancelled_quantity
            == quantity,
        forall|id: OrderId|
            id.0 != st.next_order_id ==> #[trigger] st.place(
                side,
                limit,
                quantity,
                tif,
            ).0.book.occurrences(id) <= st.book.occurrences(id),
        forall|id: OrderId|
            id.0 != st.next_order_id ==> #[trigger] st.place(side, limit, quantity, tif).0.book.held(
                id,
            ) <= st.book.held(id),
        st.place(side, limit, quantity, tif).0.book.held(OrderId(st.next_order_id)) == st.place(
            side,
            limit,
            quantity,
            tif,
        ).1.resting_quantity,
{
    lemma_matched(st, side, limit, quantity, tif);
    let end = st.matched(side, limit, quantity);
    let next = st.place(side, limit, quantity, tif).0;
    let own = OrderId(st.next_order_id);
    lemma_none_at_or_above(st.book.bids, st.next_order_id, own);
    lemma_none_at_or_above(st.book.asks, st.next_order_id, own);
    lemma_absent_holds_nothing(st.book.bids, own);
    lemma_absent_holds_nothing(st.book.asks, own);
    assert(end.book.held(own) <= st.book.held(own));
    assert forall|id: OrderId| id.0 != st.next_order_id implies #[trigger] next.book.held(id)
        <= st.book.held(id) by {
        assert(end.book.held(id) <= st.book.held(id));
        if end.remaining > 0 && limit is Some {
            lemma_book_insert(
                end.book,
                Order::spec_with_remaining(
                    OrderId(st.next_order_id),
                    side,
                    limit.unwrap(),
                    quantity,
                    end.remaining,
                    tif,
                    st.clock,
                ),
            );
        }
    }
    assert forall|id: OrderId| id.0 != st.next_order_id implies #[trigger] next.book.occurrences(
        id,
    ) <= st.book.occurrences(id) by {
        assert(end.book.occurrences(id) <= st.book.occurrences(id));
        if end.remaining > 0 && limit is Some {
            lemma_book_insert(
                end.book,
                Order::spec_with_remaining(
                    OrderId(st.next_order_id),
                    side,
                    limit.unwrap(),
                    quantity,
                    end.remaining,
                    tif,
                    st.clock,
                ),
            );
        }
    }
    assert forall|i: int| 0 <= i < next.stops.len() implies next.book.occurrences(
        (#[trigger] next.stops[i]).id,
    ) == 0 by {
        assert(next.book.occurrences(st.stops[i].id) <= st.book.occurrences(st.stops[i].id));
    }
    if tif == TimeInForce::FOK && available(st.book.side(side.opposite()), side, limit, 0)
        < quantity {
        crate::ladder::lemma_ids_below_weaken(st.book.bids, st.next_order_id, next.next_order_id);
        crate::ladder::lemma_ids_below_weaken(st.book.asks, st.next_order_id, next.next_order_id);
    } else if end.remaining > 0 && tif == TimeInForce::GTC && limit is Some {
        let order = Order::spec_with_remaining(
            OrderId(st.next_order_id),
            side,
            limit.unwrap(),
            quantity,
            end.remaining,
            tif,
            st.clock,
        );
        lemma_book_insert(end.book, order);
    } else {
        crate::ladder::lemma_ids_below_weaken(end.book.bids, st.next_order_id, next.next_order_id);
        crate::ladder::lemma_ids_below_weaken(end.book.asks, st.next_order_id, next.next_order_id);
    }
}

/// What an order puts on the book is found there under its id, and an order that puts
/// nothing there is not found.
pub proof fn lemma_placed_rests(
    st: ExchangeView,
    side: Side,
    limit: Option<Price>,
    quantity: u64,
    tif: TimeInForce,
)
    requires
        st.wf(),
        st.next_order_id < ID_LIMIT,
        quantity > 0,
    ensures
        ({
            let placed = st.place(side, limit, quantity, tif);
            if placed.1.resting_quantity > 0 {
                &&& tif == TimeInForce::GTC
                &&& limit is Some
                &&& placed.0.book.find(placed.1.order_id) == Some(
                    Order::spec_with_remaining(
                        placed.1.order_id,
                        side,
                        limit.unwrap(),
                        quantity,
                        placed.1.resting_quantity,
                        tif,
                        st.clock,
                    ),
                )
            } else {
                placed.0.book.find(placed.1.order_id) is None
            }
        }),
        still_resting(
            st.place(side, limit, quantity, tif).0.book,
            st.place(side, limit, quantity, tif).1.order_id,
        ) == st.place(side, limit, quantity, tif).1.resting_quantity,
{
    lemma_matched(st, side, limit, quantity, tif);
    lemma_place(st, side, limit, quantity, tif);
    let end = st.matched(side, limit, quantity);
    let placed = st.place(side, limit, quantity, tif);
    let id = OrderId(st.next_order_id);
    if placed.1.resting_quantity > 0 {
        let order = Order::spec_with_remaining(
            id,
            side,
            limit.unwrap(),
            quantity,
            end.remaining,
            tif,
            st.clock,
        );
        lemma_book_insert(end.book, order);
    } else {
        crate::ladder::lemma_absent_below(placed.0.book.bids, id);
        crate::ladder::lemma_absent_below(placed.0.book.asks, id);
    }
}

/// Where [`first_triggered`] lands: on the first activated stop, having passed only
/// stops that no trade reaches.
pub proof fn lemma_first_triggered(stops: Seq<StopOrder>, trades: Seq<Trade>, from: int)
    requires
        0 <= from <= stops.len(),
    ensures
        from <= first_triggered(stops, trades, from) <= stops.len(),
        first_triggered(stops, trades, from) < stops.len() ==> stop_triggered(
            stops[first_triggered(stops, trades, from)],
            trades,
        ),
        forall|k: int|
            from <= k < first_triggered(stops, trades, from) ==> !stop_triggered(
                #[trigger] stops[k],
                trades,
            ),
    decreases stops.len() - from,
{
    if from < stops.len() && !stop_triggered(stops[from], trades) {
        lemma_first_triggered(stops, trades, from + 1);
    }
}

/// Where [`stop_index_of`] lands: on the first stop with the id.
pub proof fn lemma_stop_index_of(stops: Seq<StopOrder>, id: OrderId, from: int)
    requires
        0 <= from <= stops.len(),
    ensures
        from <= stop_index_of(stops, id, from) <= stops.len(),
        stop_index_of(stops, id, from) < stops.len() ==> stops[stop_index_of(
            stops,
            id,
            from,
        )].id == id,
        forall|k: int| from <= k < stop_index_of(stops, id, from) ==> (#[trigger] stops[k]).id != id,
    decreases stops.len() - from,
{
    if from < stops.len() && stops[from].id != id {
        lemma_stop_index_of(stops, id, from + 1);
    }
}

/// Taking one dormant stop out keeps the exchange well formed.
pub proof fn lemma_drop_stop(st: ExchangeView, i: int)
    requires
        st.wf(),
        0 <= i < st.stops.len(),
    ensures
        (ExchangeView { stops: st.stops.remove(i), ..st }).wf(),
        st.stops.remove(i).len() == st.stops.len() - 1,
{
    let kept = st.stops.remove(i);
    st.stops.remove_ensures(i);
    assert forall|k: int| 0 <= k < kept.len() implies (#[trigger] kept[k]).quantity > 0
        && kept[k].id.0 < st.next_order_id && st.book.occurrences(kept[k].id) == 0 by {
        let k0 = if k < i { k } else { k + 1 };
        assert(kept[k] == st.stops[k0]);
    }
    assert forall|a: int, b: int| 0 <= a < b < kept.len() implies (#[trigger] kept[a]).id.0 < (
    #[trigger] kept[b]).id.0 by {
        let a0 = if a < i { a } else { a + 1 };
        let b0 = if b < i { b } else { b + 1 };
        assert(kept[a] == st.stops[a0] && kept[b] == st.stops[b0]);
        assert(st.stops[a0].id.0 < st.stops[b0].id.0);
    }
}

/// Activating stops keeps the exchange well formed, only ever adds trades behind those
/// already generated, and uses up one id for each stop that leaves the dormant list.
pub proof fn lemma_activate_stops(st: ExchangeView, trades: Seq<Trade>)
    requires
        st.wf(),
        st.next_order_id + st.stops.len() <= ID_LIMIT,
    ensures
        st.activate_stops(trades).0.wf(),
        st.activate_stops(trades).0.next_order_id + st.activate_stops(trades).0.stops.len()
            == st.next_order_id + st.stops.len(),
        st.activate_stops(trades).0.stops.len() <= st.stops.len(),
        st.activate_stops(trades).1.len() >= trades.len(),
        st.activate_stops(trades).1.take(trades.len() as int) == trades,
        first_triggered(
            st.activate_stops(trades).0.stops,
            st.activate_stops(trades).1,
            0,
        ) == st.activate_stops(trades).0.stops.len(),
        st.activate_stops(trades).0.next_trade_id + trades.len() == st.next_trade_id
            + st.activate_stops(trades).1.len(),
        forall|id: OrderId|
            id.0 < st.next_order_id ==> #[trigger] st.activate_stops(trades).0.book.occurrences(
                id,
            ) <= st.book.occurrences(id),
        forall|id: OrderId|
            id.0 < st.next_order_id ==> #[trigger] st.activate_stops(trades).0.book.held(id)
                <= st.book.held(id),
    decreases st.stops.len(),
{
    let i = first_triggered(st.stops, trades, 0);
    lemma_first_triggered(st.stops, trades, 0);
    if 0 <= i < st.stops.len() {
        let stop = st.stops[i];
        let without = ExchangeView { stops: st.stops.remove(i), ..st };
        lemma_drop_stop(st, i);
        lemma_place(without, stop.side, stop.limit_price, stop.quantity, activation_tif(stop));
        let entered = without.place(
            stop.side,
            stop.limit_price,
            stop.quantity,
            activation_tif(stop),
        );
        lemma_activate_stops(entered.0, trades + entered.1.trades);
        assert forall|id: OrderId| id.0 < st.next_order_id implies #[trigger] st.activate_stops(
            trades,
        ).0.book.occurrences(id) <= st.book.occurrences(id) by {
            assert(entered.0.book.occurrences(id) <= st.book.occurrences(id));
            assert(entered.0.activate_stops(trades + entered.1.trades).0.book.occurrences(id)
                <= entered.0.book.occurrences(id));
        }
        assert forall|id: OrderId| id.0 < st.next_order_id implies #[trigger] st.activate_stops(
            trades,
        ).0.book.held(id) <= st.book.held(id) by {
            assert(entered.0.book.held(id) <= st.book.held(id));
            assert(entered.0.activate_stops(trades + entered.1.trades).0.book.held(id)
                <= entered.0.book.held(id));
        }
        let more = trades + entered.1.trades;
        assert(entered.0.activate_stops(more).1.take(trades.len() as int)
            =~= entered.0.activate_stops(more).1.take(more.len() as int).take(
            trades.len() as int,
        ));
        assert(more.take(trades.len() as int) =~= trades);
    } else {
        assert(trades.take(trades.len() as int) =~= trades);
    }
}

/// What the trades of one order look like: each has a positive quantity, names the order
/// as aggressor on its side, carries its timestamp, is made at a price within its bound,
/// and takes the next trade id in turn.
pub proof fn lemma_place_trades(
    st: ExchangeView,
    side: Side,
    limit: Option<Price>,
    quantity: u64,
    tif: TimeInForce,
    k: int,
)
    requires
        st.wf(),
        st.next_order_id < ID_LIMIT,
        0 <= k < st.place(side, limit, quantity, tif).1.trades.len(),
    ensures
        ({
            let trade = st.place(side, limit, quantity, tif).1.trades[k];
            &&& trade.quantity > 0
            &&& trade.aggressor_side == side
            &&& trade.aggressor_order_id == OrderId(st.next_order_id)
            &&& trade.timestamp == st.clock
            &&& trade.id.0 == st.next_trade_id + k
            &&& crosses(side, limit, trade.price)
        }),
{
    crate::matching::lemma_run_match_trades(
        MatchState {
            book: st.book,
            remaining: quantity,
            trades: Seq::empty(),
            next_trade_id: st.next_trade_id,
        },
        Taker { side, id: OrderId(st.next_order_id), timestamp: st.clock },
        limit,
        k,
    );
}

/// Whether each trade has a positive quantity and the trade ids count up from `first`.
pub open spec fn trades_numbered_from(trades: Seq<Trade>, first: int) -> bool {
    forall|k: int|
        0 <= k < trades.len() ==> (#[trigger] trades[k]).quantity > 0 && trades[k].id.0 == first
            + k
}

/// Activating stops continues the numbering of the trades generated so far.
pub proof fn lemma_activate_trades(st: ExchangeView, trades: Seq<Trade>)
    requires
        st.wf(),
        st.next_order_id + st.stops.len() <= ID_LIMIT,
        trades_numbered_from(trades, st.next_trade_id - trades.len()),
    ensures
        trades_numbered_from(st.activate_stops(trades).1, st.next_trade_id - trades.len()),
    decreases st.stops.len(),
{
    let i = first_triggered(st.stops, trades, 0);
    lemma_first_triggered(st.stops, trades, 0);
    if 0 <= i < st.stops.len() {
        let stop = st.stops[i];
        let without = ExchangeView { stops: st.stops.remove(i), ..st };
        lemma_drop_stop(st, i);
        let tif = activation_tif(stop);
        lemma_place(without, stop.side, stop.limit_price, stop.quantity, tif);
        let entered = without.place(stop.side, stop.limit_price, stop.quantity, tif);
        let more = trades + entered.1.trades;
        assert forall|k: int| 0 <= k < more.len() implies (#[trigger] more[k]).quantity > 0
            && more[k].id.0 == st.next_trade_id - trades.len() + k by {
            if k >= trades.len() {
                lemma_place_trades(
                    without,
                    stop.side,
                    stop.limit_price,
                    stop.quantity,
                    tif,
                    k - trades.len(),
                );
            } else {
                assert(more[k] == trades[k]);
            }
        }
        lemma_activate_trades(entered.0, more);
    }
}

/// A submission keeps the exchange well formed and accounts for every unit of the order
/// as filled, resting or cancelled.
pub proof fn lemma_submit(
    st: ExchangeView,
    side: Side,
    limit: Option<Price>,
    quantity: u64,
    tif: TimeInForce,
)
    requires
        st.wf(),
        st.has_capacity(),
        quantity > 0,
    ensures
        st.submit(side, limit, quantity, tif).0.wf(),
        st.submit(side, limit, quantity, tif).0.next_order_id + st.submit(
            side,
            limit,
            quantity,
            tif,
        ).0.stops.len() == st.next_order_id + st.stops.len() + 1,
        st.submit(side, limit, quantity, tif).1.order_id == OrderId(st.next_order_id),
        st.submit(side, limit, quantity, tif).1.filled_quantity + st.submit(
            side,
            limit,
            quantity,
            tif,
        ).1.resting_quantity + st.submit(side, limit, quantity, tif).1.cancelled_quantity
            == quantity,
        st.submit(side, limit, quantity, tif).0.next_trade_id == st.next_trade_id + st.submit(
            side,
            limit,
            quantity,
            tif,
        ).1.trades.len(),
        forall|id: OrderId|
            id.0 < st.next_order_id ==> #[trigger] st.submit(
                side,
                limit,
                quantity,
                tif,
            ).0.book.occurrences(id) <= st.book.occurrences(id),
        st.stops.len() == 0 ==> st.submit(side, limit, quantity, tif) == st.place(
            side,
            limit,
            quantity,
            tif,
        ),
        st.submit(side, limit, quantity, tif).1.resting_quantity <= st.place(
            side,
            limit,
            quantity,
            tif,
        ).1.resting_quantity,
        st.submit(side, limit, quantity, tif).1.cancelled_quantity == st.place(
            side,
            limit,
            quantity,
            tif,
        ).1.cancelled_quantity,
{
    lemma_place(st, side, limit, quantity, tif);
    let placed = st.place(side, limit, quantity, tif);
    lemma_activate_stops(placed.0, placed.1.trades);
    let settled = placed.0.activate_stops(placed.1.trades);
    assert(settled.0.book.held(placed.1.order_id) <= placed.0.book.held(placed.1.order_id));
    if settled.0.book.find(placed.1.order_id) is Some {
        lemma_book_found(settled.0.book, placed.1.order_id);
    }
    if st.stops.len() == 0 {
        lemma_placed_rests(st, side, limit, quantity, tif);
    }
    assert forall|id: OrderId| id.0 < st.next_order_id implies #[trigger] st.submit(
        side,
        limit,
        quantity,
        tif,
    ).0.book.occurrences(id) <= st.book.occurrences(id) by {
        assert(placed.0.book.occurrences(id) <= st.book.occurrences(id));
        assert(placed.0.activate_stops(placed.1.trades).0.book.occurrences(id)
            <= placed.0.book.occurrences(id));
    }
}

/// Giving out an id and a timestamp keeps the exchange well formed.
pub proof fn lemma_ticked(st: ExchangeView)
    requires
        st.wf(),
        st.next_order_id < ID_LIMIT,
    ensures
        st.ticked().wf(),
{
    let next = st.ticked();
    crate::ladder::lemma_ids_below_weaken(st.book.bids, st.next_order_id, next.next_order_id);
    crate::ladder::lemma_ids_below_weaken(st.book.asks, st.next_order_id, next.next_order_id);
}

/// Submitting a stop keeps the exchange well formed. The stop goes dormant exactly when
/// the last traded price has not reached its trigger, and then no trade is made.
pub proof fn lemma_submit_stop(
    st: ExchangeView,
    side: Side,
    trigger_price: Price,
    limit_price: Option<Price>,
    quantity: u64,
    tif: TimeInForce,
)
    requires
        st.wf(),
        st.has_capacity(),
        quantity > 0,
    ensures
        st.submit_stop(side, trigger_price, limit_price, quantity, tif).0.wf(),
        st.submit_stop(side, trigger_price, limit_price, quantity, tif).1.order_id == OrderId(
            st.next_order_id,
        ),
        st.submit_stop(side, trigger_price, limit_price, quantity, tif).1.status == (
        if st.already_reached(side, trigger_price) {
            StopStatus::Triggered
        } else {
            StopStatus::Pending
        }),
        !st.already_reached(side, trigger_price) ==> st.submit_stop(
            side,
            trigger_price,
            limit_price,
            quantity,
            tif,
        ).1.trades.len() == 0 && st.submit_stop(
            side,
            trigger_price,
            limit_price,
            quantity,
            tif,
        ).0.book == st.book,
{
    let next = st.submit_stop(side, trigger_price, limit_price, quantity, tif).0;
    let id = OrderId(st.next_order_id);
    lemma_ticked(st);
    if st.already_reached(side, trigger_price) {
        let stop = StopOrder {
            id,
            side,
            trigger_price,
            limit_price,
            quantity,
            time_in_force: tif,
            timestamp: st.clock,
        };
        lemma_place(st.ticked(), side, limit_price, quantity, activation_tif(stop));
        let entered = st.ticked().place(side, limit_price, quantity, activation_tif(stop));
        lemma_activate_stops(entered.0, entered.1.trades);
    } else {
        crate::occurrence::lemma_none_at_or_above(st.book.bids, st.next_order_id, id);
        crate::occurrence::lemma_none_at_or_above(st.book.asks, st.next_order_id, id);
        assert forall|i: int, j: int| 0 <= i < j < next.stops.len() implies (
        #[trigger] next.stops[i]).id.0 < (#[trigger] next.stops[j]).id.0 by {
            if j < st.stops.len() {
                assert(st.stops[i].id.0 < st.stops[j].id.0);
            } else {
                assert(st.stops[i].id.0 < st.next_order_id);
            }
        }
    }
}

/// Cancelling keeps the exchange well formed, and fails exactly when the id names
/// neither a resting order nor a dormant stop.
pub proof fn lemma_cancel(st: ExchangeView, id: OrderId)
    requires
        st.wf(),
    ensures
        st.cancel(id).0.wf(),
        st.cancel(id).0.next_order_id == st.next_order_id,
        st.cancel(id).0.stops.len() <= st.stops.len(),
        st.cancel(id).1.success <==> st.cancel(id).1.error is None,
        !st.cancel(id).1.success ==> st.cancel(id).0 == st,
{
    lemma_book_remove(st.book, id, st.next_order_id);
    let i = stop_index_of(st.stops, id, 0);
    lemma_stop_index_of(st.stops, id, 0);
    if st.book.find(id) is None && i < st.stops.len() {
        lemma_drop_stop(st, i);
    }
    let next = st.cancel(id).0;
    assert forall|k: int| 0 <= k < next.stops.len() implies next.book.occurrences(
        (#[trigger] next.stops[k]).id,
    ) == 0 by {
        if st.book.find(id) is Some {
            assert(next.book.occurrences(st.stops[k].id) <= st.book.occurrences(st.stops[k].id));
        }
    }
}

/// Replacing an order keeps the exchange well formed, and fails exactly when the id
/// names no resting order, in which case nothing changes.
pub proof fn lemma_modify(st: ExchangeView, id: OrderId, new_price: Price, new_quantity: u64)
    requires
        st.wf(),
        st.has_capacity(),
        new_quantity > 0,
    ensures
        st.modify(id, new_price, new_quantity).0.wf(),
        st.modify(id, new_price, new_quantity).1.success <==> st.book.find(id) is Some,
        !st.modify(id, new_price, new_quantity).1.success ==> st.modify(
            id,
            new_price,
            new_quantity,
        ).0 == st,
        st.modify(id, new_price, new_quantity).1.success ==> st.modify(
            id,
            new_price,
            new_quantity,
        ).1.new_order_id == Some(OrderId(st.next_order_id)),
{
    lemma_book_remove(st.book, id, st.next_order_id);
    match st.book.find(id) {
        Some(order) => {
            let without = ExchangeView { book: st.book.remove(id), ..st };
            lemma_submit(without, order.side, Some(new_price), new_quantity, order.time_in_force);
        },
        None => {},
    }
}

} // verus!
