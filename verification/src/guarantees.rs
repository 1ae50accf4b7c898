//! What holds of every exchange, whatever has been submitted to it.

use vstd::prelude::*;
use crate::book::BookView;
use crate::ladder::{available, front_order, total_quantity};
use crate::level::LevelView;
use crate::matching::{
    can_match, in_priority_order, lemma_front_has_priority, lemma_match_step, lemma_run_match,
    lemma_run_match_fills, lemma_run_match_priority, match_step, next_trade, traded_quantity,
    MatchState, Taker,
};
use crate::model::{
    lemma_cancel, lemma_matched, lemma_modify, lemma_place, lemma_stop_index_of, lemma_submit,
    lemma_submit_stop, stop_index_of, ExchangeView,
};
use crate::multi::{
    exchange_of, has_market, lemma_market_index, lemma_with_exchange, market_index, markets_wf,
    with_exchange, MarketView,
};
use crate::order::Order;
use crate::types::{better, crosses, OrderId, OrderStatus, Price, Side, TimeInForce};

verus! {

/// One operation on an exchange.
pub enum Command {
    Limit { side: Side, price: Price, quantity: u64, tif: TimeInForce },
    Market { side: Side, quantity: u64 },
    Stop {
        side: Side,
        trigger_price: Price,
        limit_price: Option<Price>,
        quantity: u64,
        tif: TimeInForce,
    },
    Cancel { id: OrderId },
    Modify { id: OrderId, new_price: Price, new_quantity: u64 },
}

/// Whether the exchange accepts the command: a submission needs a positive quantity and
/// an exchange that can still give out ids; a cancellation is always accepted.
pub open spec fn admits(st: ExchangeView, command: Command) -> bool {
    match command {
        Command::Limit { quantity, .. } => quantity > 0 && st.has_capacity(),
        Command::Market { quantity, .. } => quantity > 0 && st.has_capacity(),
        Command::Stop { quantity, .. } => quantity > 0 && st.has_capacity(),
        Command::Cancel { .. } => true,
        Command::Modify { new_quantity, .. } => new_quantity > 0 && st.has_capacity(),
    }
}

/// The state in which the command leaves the exchange.
pub open spec fn apply(st: ExchangeView, command: Command) -> ExchangeView {
    match command {
        Command::Limit { side, price, quantity, tif } => st.submit_limit(
            side,
            price,
            quantity,
            tif,
        ).0,
        Command::Market { side, quantity } => st.submit_market(side, quantity).0,
        Command::Stop { side, trigger_price, limit_price, quantity, tif } => st.submit_stop(
            side,
            trigger_price,
            limit_price,
            quantity,
            tif,
        ).0,
        Command::Cancel { id } => st.cancel(id).0,
        Command::Modify { id, new_price, new_quantity } => st.modify(id, new_price, new_quantity).0,
    }
}

/// The state after a sequence of commands, applied first to last.
pub open spec fn apply_all(st: ExchangeView, commands: Seq<Command>) -> ExchangeView
    decreases commands.len(),
{
    if commands.len() == 0 {
        st
    } else {
        apply(apply_all(st, commands.drop_last()), commands.last())
    }
}

/// Whether the exchange accepts each command of the sequence in the state in which the
/// command finds it.
pub open spec fn admits_all(st: ExchangeView, commands: Seq<Command>) -> bool
    decreases commands.len(),
{
    commands.len() > 0 ==> admits_all(st, commands.drop_last()) && admits(
        apply_all(st, commands.drop_last()),
        commands.last(),
    )
}

/// Every operation takes a well-formed exchange to a well-formed exchange.
pub proof fn law_step_keeps_wf(st: ExchangeView, command: Command)
    requires
        st.wf(),
        admits(st, command),
    ensures
        apply(st, command).wf(),
{
    match command {
        Command::Limit { side, price, quantity, tif } => {
            lemma_submit(st, side, Some(price), quantity, tif);
        },
        Command::Market { side, quantity } => {
            lemma_submit(st, side, None, quantity, TimeInForce::IOC);
        },
        Command::Stop { side, trigger_price, limit_price, quantity, tif } => {
            lemma_submit_stop(st, side, trigger_price, limit_price, quantity, tif);
        },
        Command::Cancel { id } => {
            lemma_cancel(st, id);
        },
        Command::Modify { id, new_price, new_quantity } => {
            lemma_modify(st, id, new_price, new_quantity);
        },
    }
}

/// Every state that a new exchange can reach through accepted commands is well formed.
pub proof fn law_reachable_wf(commands: Seq<Command>)
    requires
        admits_all(ExchangeView::initial(), commands),
    ensures
        apply_all(ExchangeView::initial(), commands).wf(),
    decreases commands.len(),
{
    if commands.len() == 0 {
        assert(crate::ladder::level_sizes(Seq::<LevelView>::empty()) =~= Seq::<nat>::empty());
    } else {
        law_reachable_wf(commands.drop_last());
        law_step_keeps_wf(
            apply_all(ExchangeView::initial(), commands.drop_last()),
            commands.last(),
        );
    }
}

/// In a well-formed exchange every resting order has counters that add up to its
/// original quantity, has quantity left to execute, and is resting or partially filled
/// according to whether any of it has executed.
pub proof fn law_counters_add_up(st: ExchangeView, side: Side, level: int, position: int)
    requires
        st.wf(),
        0 <= level < st.book.side(side).len(),
        0 <= position < st.book.side(side)[level].orders.len(),
    ensures
        ({
            let order = st.book.side(side)[level].orders[position];
            &&& order.filled_quantity + order.remaining_quantity == order.original_quantity
            &&& order.remaining_quantity > 0
            &&& order.status == (if order.filled_quantity == 0 {
                OrderStatus::Resting
            } else {
                OrderStatus::PartiallyFilled
            })
            &&& order.side == side
            &&& order.price == st.book.side(side)[level].price
            &&& order.id.0 < st.next_order_id
        }),
{
    let lv = st.book.side(side)[level];
    assert(lv.wf(side));
    assert(lv.ids_below(st.next_order_id));
    assert(lv.orders[position].live());
}

/// After any sequence of accepted commands every resting order has counters that add
/// up to its original quantity.
pub proof fn law_counters_always_add_up(
    commands: Seq<Command>,
    side: Side,
    level: int,
    position: int,
)
    requires
        admits_all(ExchangeView::initial(), commands),
        0 <= level < apply_all(ExchangeView::initial(), commands).book.side(side).len(),
        0 <= position < apply_all(ExchangeView::initial(), commands).book.side(
            side,
        )[level].orders.len(),
    ensures
        ({
            let order = apply_all(ExchangeView::initial(), commands).book.side(
                side,
            )[level].orders[position];
            order.filled_quantity + order.remaining_quantity == order.original_quantity
        }),
{
    law_reachable_wf(commands);
    law_counters_add_up(apply_all(ExchangeView::initial(), commands), side, level, position);
}

/// A submission accounts for every unit of the order: what it executed, what it put on
/// the book and what it cancelled add up to the quantity submitted.
pub proof fn law_result_adds_up(
    st: ExchangeView,
    side: Side,
    limit: Option<Price>,
    quantity: u64,
    tif: TimeInForce,
)
    requires
        st.wf(),
        st.has_capacity(),
        quantity > 0,
    ensures
        ({
            let result = st.submit(side, limit, quantity, tif).1;
            result.filled_quantity + result.resting_quantity + result.cancelled_quantity
                == quantity
        }),
{
    lemma_submit(st, side, limit, quantity, tif);
}

/// In a well-formed exchange the book is not crossed: whenever both sides hold orders,
/// the best bid is strictly below the best ask.
pub proof fn law_never_crossed(st: ExchangeView)
    requires
        st.wf(),
    ensures
        match st.book.best_bid_ask() {
            (Some(bid), Some(ask)) => bid.0 < ask.0,
            _ => true,
        },
{
}

/// After any sequence of accepted commands the book is not crossed.
pub proof fn law_never_crossed_after(commands: Seq<Command>)
    requires
        admits_all(ExchangeView::initial(), commands),
    ensures
        match apply_all(ExchangeView::initial(), commands).book.best_bid_ask() {
            (Some(bid), Some(ask)) => bid.0 < ask.0,
            _ => true,
        },
{
    law_reachable_wf(commands);
}

/// Price-time priority of one trade: the resting order that trades is at the best price
/// of its side, and among the orders at that price it is the one with the lowest id,
/// that is, the one submitted first.
pub proof fn law_oldest_at_best_price_first(
    st: MatchState,
    taker: Taker,
    limit: Option<Price>,
    level: int,
    position: int,
)
    requires
        st.book.wf(),
        can_match(st.book, taker.side, limit, st.remaining),
        0 <= level < st.book.side(taker.side.opposite()).len(),
        0 <= position < st.book.side(taker.side.opposite())[level].orders.len(),
    ensures
        ({
            let trade = next_trade(st, taker);
            let other = st.book.side(taker.side.opposite())[level].orders[position];
            &&& !better(taker.side.opposite(), other.price, trade.price)
            &&& other.price == trade.price ==> trade.passive_order_id.0 <= other.id.0
            &&& other.price == trade.price && other.id != trade.passive_order_id
                ==> trade.passive_order_id.0 < other.id.0
        }),
{
    lemma_front_has_priority(st, taker, limit, level, position);
}

/// Price-time priority of a submission: of any two trades that an order makes while it
/// is matched, the earlier one is at the better or the same price, and at the same
/// price it is against the resting order with the lower id.
pub proof fn law_price_time_priority(
    st: ExchangeView,
    side: Side,
    limit: Option<Price>,
    quantity: u64,
    earlier: int,
    later: int,
)
    requires
        st.wf(),
        0 <= earlier < later < st.matched(side, limit, quantity).trades.len(),
    ensures
        ({
            let trades = st.matched(side, limit, quantity).trades;
            &&& !better(side.opposite(), trades[later].price, trades[earlier].price)
            &&& trades[later].price == trades[earlier].price
                ==> trades[earlier].passive_order_id.0 <= trades[later].passive_order_id.0
        }),
{
    let start = MatchState {
        book: st.book,
        remaining: quantity,
        trades: Seq::empty(),
        next_trade_id: st.next_trade_id,
    };
    let taker = Taker { side, id: OrderId(st.next_order_id), timestamp: st.clock };
    lemma_run_match_priority(start, taker, limit, 0);
    let trades = st.matched(side, limit, quantity).trades;
    assert(in_priority_order(side.opposite(), trades[earlier], trades[later]));
}

/// How much a submission executes: what it asks for or what the opposite side offers
/// within its price bound, whichever is less; and nothing at all if it is fill-or-kill
/// and the offer falls short.
pub proof fn law_filled_quantity(
    st: ExchangeView,
    side: Side,
    limit: Option<Price>,
    quantity: u64,
    tif: TimeInForce,
)
    requires
        st.wf(),
        st.next_order_id < crate::model::ID_LIMIT,
        quantity > 0,
    ensures
        ({
            let offered = available(st.book.side(side.opposite()), side, limit, 0);
            let result = st.place(side, limit, quantity, tif).1;
            result.filled_quantity == (if offered >= quantity {
                quantity as nat
            } else if tif == TimeInForce::FOK {
                0
            } else {
                offered
            })
        }),
{
    let start = MatchState {
        book: st.book,
        remaining: quantity,
        trades: Seq::empty(),
        next_trade_id: st.next_trade_id,
    };
    let taker = Taker { side, id: OrderId(st.next_order_id), timestamp: st.clock };
    lemma_run_match_fills(start, taker, limit);
}

/// A fill-or-kill order is all or nothing: either it executes in full, or it makes no
/// trade, is cancelled in full, and leaves the book as it was.
pub proof fn law_fill_or_kill(st: ExchangeView, side: Side, limit: Option<Price>, quantity: u64)
    requires
        st.wf(),
        st.next_order_id < crate::model::ID_LIMIT,
        quantity > 0,
    ensures
        ({
            let placed = st.place(side, limit, quantity, TimeInForce::FOK);
            ||| {
                &&& placed.1.status == OrderStatus::Filled
                &&& placed.1.filled_quantity == quantity
                &&& placed.1.cancelled_quantity == 0
                &&& placed.1.resting_quantity == 0
            }
            ||| {
                &&& placed.1.status == OrderStatus::Cancelled
                &&& placed.1.trades.len() == 0
                &&& placed.1.filled_quantity == 0
                &&& placed.1.cancelled_quantity == quantity
                &&& placed.1.resting_quantity == 0
                &&& placed.0.book == st.book
            }
        }),
{
    law_filled_quantity(st, side, limit, quantity, TimeInForce::FOK);
    lemma_place(st, side, limit, quantity, TimeInForce::FOK);
}

/// What rests stays findable: the remainder that a good-til-cancelled limit order puts
/// on the book is found there under the order's id, with counters that account for what
/// it has executed; an order that puts nothing on the book is not found.
pub proof fn law_remainder_rests(
    st: ExchangeView,
    side: Side,
    limit: Option<Price>,
    quantity: u64,
    tif: TimeInForce,
)
    requires
        st.wf(),
        st.next_order_id < crate::model::ID_LIMIT,
        quantity > 0,
    ensures
        ({
            let placed = st.place(side, limit, quantity, tif);
            if placed.1.resting_quantity > 0 {
                &&& tif == TimeInForce::GTC
                &&& limit is Some
                &&& placed.0.book.find(placed.1.order_id) == Some(
                    Order::spec_with_remaining(
                        placed.1.order_id,
                        side,
                        limit.unwrap(),
                        quantity,
                        placed.1.resting_quantity,
                        tif,
                        st.clock,
                    ),
                )
                &&& placed.1.status == (if placed.1.filled_quantity == 0 {
                    OrderStatus::Resting
                } else {
                    OrderStatus::PartiallyFilled
                })
            } else {
                placed.0.book.find(placed.1.order_id) is None
            }
        }),
{
    crate::model::lemma_placed_rests(st, side, limit, quantity, tif);
    lemma_place(st, side, limit, quantity, tif);
}

/// What the trades of an order look like: each has a positive quantity, is made at a
/// price within the order's bound, names the order as aggressor and carries its
/// timestamp; the trade ids count up from the first free id.
pub proof fn law_trades_of_an_order(
    st: ExchangeView,
    side: Side,
    limit: Option<Price>,
    quantity: u64,
    tif: TimeInForce,
    k: int,
)
    requires
        st.wf(),
        st.next_order_id < crate::model::ID_LIMIT,
        0 <= k < st.place(side, limit, quantity, tif).1.trades.len(),
    ensures
        ({
            let placed = st.place(side, limit, quantity, tif);
            let trade = placed.1.trades[k];
            &&& trade.quantity > 0
            &&& trade.aggressor_side == side
            &&& trade.aggressor_order_id == placed.1.order_id
            &&& trade.timestamp == st.clock
            &&& trade.id.0 == st.next_trade_id + k
            &&& crosses(side, limit, trade.price)
        }),
{
    crate::model::lemma_place_trades(st, side, limit, quantity, tif, k);
}

/// Conservation in one trade: the quantity of the trade leaves the book, leaves the
/// incoming order's remainder, and is added to the fill counter of the resting order,
/// which stays at the head of the queue unless it is filled in full.
pub proof fn law_trade_moves_quantity(st: MatchState, taker: Taker, limit: Option<Price>)
    requires
        st.book.wf(),
        can_match(st.book, taker.side, limit, st.remaining),
    ensures
        ({
            let trade = next_trade(st, taker);
            let passive = front_order(st.book.side(taker.side.opposite())).unwrap();
            let after = match_step(st, taker);
            &&& trade.quantity > 0
            &&& trade.price == passive.price
            &&& after.remaining + trade.quantity == st.remaining
            &&& after.book.total_quantity() + trade.quantity == st.book.total_quantity()
            &&& trade.quantity < passive.remaining_quantity ==> {
                let left = front_order(after.book.side(taker.side.opposite())).unwrap();
                &&& left.id == passive.id
                &&& left.filled_quantity == passive.filled_quantity + trade.quantity
                &&& left.remaining_quantity + trade.quantity == passive.remaining_quantity
            }
            &&& trade.quantity == passive.remaining_quantity ==> after.book.order_count() + 1
                == st.book.order_count()
        }),
{
    lemma_match_step(st, taker, limit, 0);
    let opposing = st.book.side(taker.side.opposite());
    assert(opposing[0].wf(taker.side.opposite()));
    crate::book::lemma_book_pop_fill(st.book, taker.side, next_trade(st, taker).quantity, 0);
}

/// Conservation in a submission: the quantity that its trades took off the book is the
/// quantity added to the order's fill counter, and the book ends with what it held
/// before, less what was traded, plus what the order put on it.
pub proof fn law_conservation(
    st: ExchangeView,
    side: Side,
    limit: Option<Price>,
    quantity: u64,
    tif: TimeInForce,
)
    requires
        st.wf(),
        st.next_order_id < crate::model::ID_LIMIT,
        quantity > 0,
    ensures
        ({
            let placed = st.place(side, limit, quantity, tif);
            &&& traded_quantity(placed.1.trades) == placed.1.filled_quantity
            &&& placed.0.book.total_quantity() + traded_quantity(placed.1.trades)
                == st.book.total_quantity() + placed.1.resting_quantity
        }),
{
    lemma_matched(st, side, limit, quantity, tif);
    lemma_place(st, side, limit, quantity, tif);
    let start = MatchState {
        book: st.book,
        remaining: quantity,
        trades: Seq::empty(),
        next_trade_id: st.next_trade_id,
    };
    let taker = Taker { side, id: OrderId(st.next_order_id), timestamp: st.clock };
    lemma_run_match(start, taker, limit, st.next_order_id);
    let end = st.matched(side, limit, quantity);
    if tif == TimeInForce::FOK && available(st.book.side(side.opposite()), side, limit, 0)
        < quantity {
    } else if end.remaining > 0 && tif == TimeInForce::GTC && limit is Some {
        let order = Order::spec_with_remaining(
            OrderId(st.next_order_id),
            side,
            limit.unwrap(),
            quantity,
            end.remaining,
            tif,
            st.clock,
        );
        crate::book::lemma_book_insert(end.book, order);
    }
}

/// An order that is found on a well-formed book carries the id it was looked up by, has
/// quantity left to execute, and is the only order with that id.
pub proof fn law_found_order_is_live(book: BookView, id: OrderId)
    requires
        book.wf(),
        book.find(id) is Some,
    ensures
        book.find(id).unwrap().id == id,
        book.find(id).unwrap().live(),
        book.occurrences(id) == 1,
{
    crate::book::lemma_book_found(book, id);
}

/// An id of which the book holds no order is not found on it.
pub proof fn lemma_absent_is_not_found(book: BookView, id: OrderId)
    requires
        book.occurrences(id) == 0,
    ensures
        book.find(id) is None,
{
    if crate::ladder::ladder_find(book.bids, id) is Some {
        crate::occurrence::lemma_found_occurs(book.bids, id);
    } else if crate::ladder::ladder_find(book.asks, id) is Some {
        crate::occurrence::lemma_found_occurs(book.asks, id);
    }
}

/// Cancellation is final: once an order or stop has been cancelled, its id names
/// nothing on the exchange, and cancelling it again fails.
pub proof fn law_cancel_is_final(st: ExchangeView, id: OrderId)
    requires
        st.wf(),
        st.cancel(id).1.success,
    ensures
        st.cancel(id).0.book.find(id) is None,
        stop_index_of(st.cancel(id).0.stops, id, 0) == st.cancel(id).0.stops.len(),
        !st.cancel(id).0.cancel(id).1.success,
        st.cancel(id).0.cancel(id).0 == st.cancel(id).0,
{
    let next = st.cancel(id).0;
    lemma_cancel(st, id);
    crate::book::lemma_book_remove(st.book, id, st.next_order_id);
    lemma_stop_index_of(st.stops, id, 0);
    lemma_stop_index_of(next.stops, id, 0);
    let after = stop_index_of(next.stops, id, 0);
    if st.book.find(id) is Some {
        law_found_order_is_live(st.book, id);
        if after < next.stops.len() {
            assert(st.book.occurrences(st.stops[after].id) == 0);
        }
    } else {
        let i = stop_index_of(st.stops, id, 0);
        st.stops.remove_ensures(i);
        if after < next.stops.len() {
            let origin = if after < i {
                after
            } else {
                after + 1
            };
            assert(next.stops[after] == st.stops[origin]);
            if origin < i {
                assert(st.stops[origin].id.0 < st.stops[i].id.0);
            } else {
                assert(st.stops[i].id.0 < st.stops[origin].id.0);
            }
        }
    }
}

/// Replacement retires the old id: after a successful modify no order rests under the
/// old id, and the replacement has a new id, the next one the exchange had to give.
pub proof fn law_modify_retires_old_id(
    st: ExchangeView,
    id: OrderId,
    new_price: Price,
    new_quantity: u64,
)
    requires
        st.wf(),
        st.has_capacity(),
        new_quantity > 0,
        st.modify(id, new_price, new_quantity).1.success,
    ensures
        st.modify(id, new_price, new_quantity).0.book.find(id) is None,
        st.modify(id, new_price, new_quantity).1.new_order_id == Some(OrderId(st.next_order_id)),
        st.modify(id, new_price, new_quantity).1.new_order_id != Some(id),
        st.modify(id, new_price, new_quantity).1.cancelled_quantity == st.book.find(
            id,
        ).unwrap().remaining_quantity,
{
    lemma_modify(st, id, new_price, new_quantity);
    lemma_cancel(st, id);
    crate::book::lemma_book_remove(st.book, id, st.next_order_id);
    let order = st.book.find(id).unwrap();
    let without = ExchangeView { book: st.book.remove(id), ..st };
    law_found_order_is_live(st.book, id);
    assert(without.book.occurrences(id) + 1 == st.book.occurrences(id));
    if id.0 >= st.next_order_id {
        crate::occurrence::lemma_none_at_or_above(st.book.bids, st.next_order_id, id);
        crate::occurrence::lemma_none_at_or_above(st.book.asks, st.next_order_id, id);
    }
    lemma_submit(without, order.side, Some(new_price), new_quantity, order.time_in_force);
    let after = without.submit(order.side, Some(new_price), new_quantity, order.time_in_force).0;
    assert(after.book.occurrences(id) <= without.book.occurrences(id));
    lemma_absent_is_not_found(after.book, id);
}

/// The exchanges of a multi-exchange are independent: an operation that moves the
/// exchange of one symbol to a new state leaves the exchange of every other symbol
/// exactly as it was, and the markets stay well formed.
pub proof fn law_symbols_are_independent(
    markets: Seq<MarketView>,
    symbol: Seq<u8>,
    exchange: ExchangeView,
    other: Seq<u8>,
)
    requires
        markets_wf(markets),
        exchange.wf(),
        other != symbol,
    ensures
        markets_wf(with_exchange(markets, symbol, exchange)),
        exchange_of(with_exchange(markets, symbol, exchange), symbol) == exchange,
        exchange_of(with_exchange(markets, symbol, exchange), other) == exchange_of(markets, other),
        has_market(with_exchange(markets, symbol, exchange), other) == has_market(markets, other),
{
    lemma_with_exchange(markets, symbol, exchange);
    lemma_market_index(markets, other, 0);
    lemma_market_index(with_exchange(markets, symbol, exchange), other, 0);
    lemma_market_index(markets, symbol, 0);
    let next = with_exchange(markets, symbol, exchange);
    let j = market_index(markets, other, 0);
    let k = market_index(next, other, 0);
    if j < markets.len() {
        assert(next[j].symbol == other);
    } else if k < next.len() {
        assert(next[k].symbol == other);
        if k < markets.len() {
            assert(markets[k].symbol != other);
        }
    }
}

/// Every trade that a submission reports, whether made by the submitted order or by a
/// stop it activated, has a positive quantity, and the trade ids count up without gaps
/// from the first id that was free before the call.
pub proof fn law_trades_are_numbered(
    st: ExchangeView,
    side: Side,
    limit: Option<Price>,
    quantity: u64,
    tif: TimeInForce,
    k: int,
)
    requires
        st.wf(),
        st.has_capacity(),
        quantity > 0,
        0 <= k < st.submit(side, limit, quantity, tif).1.trades.len(),
    ensures
        st.submit(side, limit, quantity, tif).1.trades[k].quantity > 0,
        st.submit(side, limit, quantity, tif).1.trades[k].id.0 == st.next_trade_id + k,
        st.submit(side, limit, quantity, tif).0.next_trade_id == st.next_trade_id + st.submit(
            side,
            limit,
            quantity,
            tif,
        ).1.trades.len(),
{
    lemma_place(st, side, limit, quantity, tif);
    lemma_submit(st, side, limit, quantity, tif);
    let placed = st.place(side, limit, quantity, tif);
    assert forall|j: int| 0 <= j < placed.1.trades.len() implies (
    #[trigger] placed.1.trades[j]).quantity > 0 && placed.1.trades[j].id.0 == st.next_trade_id
        + j by {
        crate::model::lemma_place_trades(st, side, limit, quantity, tif, j);
    }
    crate::model::lemma_activate_trades(placed.0, placed.1.trades);
}

} // verus!
