//! The matching algorithm: price-time priority execution of an incoming order against
//! the opposite side of the book.

use vstd::prelude::*;
use crate::book::{lemma_book_pop_fill, BookView};
use crate::ladder::{
    available, best_price, front_order, lemma_available_after_fill, lemma_fill_front_keeps,
};
use crate::level::LevelView;
use crate::order::Trade;
use crate::types::{better, crosses, OrderId, Price, Side, TradeId};

verus! {

/// The identity of an incoming order while it is being matched.
pub struct Taker {
    pub side: Side,
    pub id: OrderId,
    pub timestamp: u64,
}

/// The state of a matching run.
pub struct MatchState {
    pub book: BookView,
    /// Quantity of the incoming order still to execute.
    pub remaining: u64,
    /// Trades generated so far, oldest first.
    pub trades: Seq<Trade>,
    /// Id of the next trade to be generated.
    pub next_trade_id: u64,
}

/// The smaller of two quantities.
pub open spec fn min_quantity(a: u64, b: u64) -> u64 {
    if a <= b {
        a
    } else {
        b
    }
}

/// Whether an incoming order on `side` bounded by `limit` with `remaining` units left can
/// trade: the opposite side holds an order, and its price is within the bound.
pub open spec fn can_match(book: BookView, side: Side, limit: Option<Price>, remaining: u64) -> bool {
    &&& remaining > 0
    &&& match front_order(book.side(side.opposite())) {
        Some(passive) => passive.remaining_quantity > 0 && crosses(side, limit, passive.price),
        None => false,
    }
}

/// The trade that the next matching step generates.
pub open spec fn next_trade(st: MatchState, taker: Taker) -> Trade {
    let passive = front_order(st.book.side(taker.side.opposite())).unwrap();
    Trade {
        id: TradeId(st.next_trade_id),
        price: passive.price,
        quantity: min_quantity(st.remaining, passive.remaining_quantity),
        aggressor_side: taker.side,
        aggressor_order_id: taker.id,
        passive_order_id: passive.id,
        timestamp: taker.timestamp,
    }
}

/// One matching step: the incoming order trades with the oldest order at the best
/// opposing price, for as much as both can take, at the resting order's price.
pub open spec fn match_step(st: MatchState, taker: Taker) -> MatchState {
    let trade = next_trade(st, taker);
    MatchState {
        book: st.book.pop_fill(taker.side, trade.quantity),
        remaining: (st.remaining - trade.quantity) as u64,
        trades: st.trades.push(trade),
        next_trade_id: (st.next_trade_id + 1) as u64,
    }
}

/// The state in which matching ends: steps are taken for as long as the incoming order
/// has quantity left and the best opposing price is within its bound.
pub open spec fn run_match(st: MatchState, taker: Taker, limit: Option<Price>) -> MatchState
    decreases st.remaining,
{
    if can_match(st.book, taker.side, limit, st.remaining) {
        run_match(match_step(st, taker), taker, limit)
    } else {
        st
    }
}

/// The total quantity of a sequence of trades.
pub open spec fn traded_quantity(trades: Seq<Trade>) -> nat
    decreases trades.len(),
{
    if trades.len() == 0 {
        0
    } else {
        traded_quantity(trades.drop_last()) + trades.last().quantity as nat
    }
}

/// What one matching step does: it generates one trade of positive quantity at the
/// resting order's price, moves that quantity out of the book and out of the incoming
/// order, and leaves the book well formed with the incoming order's own side untouched.
pub proof fn lemma_match_step(st: MatchState, taker: Taker, limit: Option<Price>, bound: u64)
    requires
        st.book.wf(),
        can_match(st.book, taker.side, limit, st.remaining),
    ensures
        match_step(st, taker).book.wf(),
        st.book.ids_below(bound) ==> match_step(st, taker).book.ids_below(bound),
        match_step(st, taker).book.side(taker.side) == st.book.side(taker.side),
        0 < next_trade(st, taker).quantity <= st.remaining,
        match_step(st, taker).remaining + next_trade(st, taker).quantity == st.remaining,
        match_step(st, taker).book.total_quantity() + next_trade(st, taker).quantity
            == st.book.total_quantity(),
        match_step(st, taker).book.order_count() + (if match_step(st, taker).remaining > 0 {
            1nat
        } else {
            0nat
        }) <= st.book.order_count(),
        best_price(st.book.side(taker.side.opposite())) == Some(next_trade(st, taker).price),
        match best_price(match_step(st, taker).book.side(taker.side.opposite())) {
            Some(p) => !better(taker.side.opposite(), p, next_trade(st, taker).price),
            None => true,
        },
        forall|id: OrderId|
            #[trigger] match_step(st, taker).book.occurrences(id) <= st.book.occurrences(id),
        forall|id: OrderId| #[trigger] match_step(st, taker).book.held(id) <= st.book.held(id),
{
    let opposing = st.book.side(taker.side.opposite());
    let quantity = next_trade(st, taker).quantity;
    assert(opposing[0].wf(taker.side.opposite()));
    lemma_book_pop_fill(st.book, taker.side, quantity, bound);
    crate::ladder::lemma_fill_front(opposing, taker.side.opposite(), quantity, bound);
}

/// What a matching run does, from any state with a well-formed book.
pub proof fn lemma_run_match(st: MatchState, taker: Taker, limit: Option<Price>, bound: u64)
    requires
        st.book.wf(),
        st.next_trade_id + st.book.order_count() < u64::MAX,
    ensures
        run_match(st, taker, limit).book.wf(),
        st.book.ids_below(bound) ==> run_match(st, taker, limit).book.ids_below(bound),
        run_match(st, taker, limit).book.side(taker.side) == st.book.side(taker.side),
        !can_match(
            run_match(st, taker, limit).book,
            taker.side,
            limit,
            run_match(st, taker, limit).remaining,
        ),
        run_match(st, taker, limit).remaining <= st.remaining,
        run_match(st, taker, limit).trades.len() >= st.trades.len(),
        run_match(st, taker, limit).trades.take(st.trades.len() as int) == st.trades,
        run_match(st, taker, limit).next_trade_id == st.next_trade_id + run_match(
            st,
            taker,
            limit,
        ).trades.len() - st.trades.len(),
        run_match(st, taker, limit).next_trade_id + run_match(st, taker, limit).book.order_count()
            <= st.next_trade_id + st.book.order_count() + (if run_match(
            st,
            taker,
            limit,
        ).remaining == 0 && st.remaining > 0 {
            1nat
        } else {
            0nat
        }),
        run_match(st, taker, limit).book.total_quantity() + st.remaining
            == st.book.total_quantity() + run_match(st, taker, limit).remaining,
        traded_quantity(run_match(st, taker, limit).trades) + run_match(
            st,
            taker,
            limit,
        ).remaining == traded_quantity(st.trades) + st.remaining,
        match best_price(run_match(st, taker, limit).book.side(taker.side.opposite())) {
            Some(p) => match best_price(st.book.side(taker.side.opposite())) {
                Some(q) => !better(taker.side.opposite(), p, q),
                None => false,
            },
            None => true,
        },
        forall|id: OrderId|
            #[trigger] run_match(st, taker, limit).book.occurrences(id) <= st.book.occurrences(
                id,
            ),
        forall|id: OrderId|
            #[trigger] run_match(st, taker, limit).book.held(id) <= st.book.held(id),
    decreases st.remaining,
{
    if can_match(st.book, taker.side, limit, st.remaining) {
        let next = match_step(st, taker);
        lemma_match_step(st, taker, limit, bound);
        if next.remaining > 0 {
            lemma_run_match(next, taker, limit, bound);
        }
        let end = run_match(st, taker, limit);
        assert(end == run_match(next, taker, limit));
        assert forall|id: OrderId| #[trigger] end.book.occurrences(id) <= st.book.occurrences(
            id,
        ) by {
            assert(next.book.occurrences(id) <= st.book.occurrences(id));
        }
        assert forall|id: OrderId| #[trigger] end.book.held(id) <= st.book.held(id) by {
            assert(next.book.held(id) <= st.book.held(id));
        }
        assert(next.trades.drop_last() =~= st.trades);
        assert(end.trades.take(st.trades.len() as int) =~= end.trades.take(
            next.trades.len() as int,
        ).take(st.trades.len() as int));
    } else {
        assert(st.trades.take(st.trades.len() as int) =~= st.trades);
    }
}

/// How far a matching run gets: the incoming order executes what it asks for or what
/// the opposite side offers within its price bound, whichever is less.
pub proof fn lemma_run_match_fills(st: MatchState, taker: Taker, limit: Option<Price>)
    requires
        st.book.wf(),
    ensures
        run_match(st, taker, limit).remaining == (if available(
            st.book.side(taker.side.opposite()),
            taker.side,
            limit,
            0,
        ) >= st.remaining {
            0
        } else {
            st.remaining - available(st.book.side(taker.side.opposite()), taker.side, limit, 0)
        }),
    decreases st.remaining,
{
    let opposing = st.book.side(taker.side.opposite());
    if opposing.len() > 0 {
        assert(opposing[0].wf(taker.side.opposite()));
        assert(opposing[0].orders[0].live());
    }
    if can_match(st.book, taker.side, limit, st.remaining) {
        let next = match_step(st, taker);
        lemma_match_step(st, taker, limit, 0);
        lemma_available_after_fill(
            opposing,
            taker.side.opposite(),
            taker.side,
            limit,
            next_trade(st, taker).quantity,
        );
        lemma_run_match_fills(next, taker, limit);
    }
}

/// What the trades of a matching run look like: each has a positive quantity, names the
/// incoming order as aggressor and carries its timestamp, and the trade ids count up
/// from the first free id.
pub proof fn lemma_run_match_trades(st: MatchState, taker: Taker, limit: Option<Price>, k: int)
    requires
        st.book.wf(),
        st.next_trade_id + st.book.order_count() < u64::MAX,
        st.trades.len() <= k < run_match(st, taker, limit).trades.len(),
    ensures
        ({
            let trade = run_match(st, taker, limit).trades[k];
            &&& trade.quantity > 0
            &&& trade.aggressor_side == taker.side
            &&& trade.aggressor_order_id == taker.id
            &&& trade.timestamp == taker.timestamp
            &&& trade.id.0 == st.next_trade_id + (k - st.trades.len())
            &&& crosses(taker.side, limit, trade.price)
        }),
    decreases st.remaining,
{
    if can_match(st.book, taker.side, limit, st.remaining) {
        let next = match_step(st, taker);
        lemma_match_step(st, taker, limit, 0);
        if next.remaining > 0 {
            lemma_run_match(next, taker, limit, 0);
            if k == st.trades.len() {
                let end = run_match(next, taker, limit);
                assert(end.trades.take(next.trades.len() as int)[k] == next.trades[k]);
            } else {
                lemma_run_match_trades(next, taker, limit, k);
            }
        }
    }
}

/// Whether trade `first` comes no later than trade `second` in the price-time priority of
/// the resting side `side`: the price of `second` has no priority over that of `first`,
/// and at equal prices the resting order of `first` has the lower or the same id.
pub open spec fn in_priority_order(side: Side, first: Trade, second: Trade) -> bool {
    &&& !better(side, second.price, first.price)
    &&& second.price == first.price ==> first.passive_order_id.0 <= second.passive_order_id.0
}

/// Whether the trades from index `from` on are in the price-time priority of the resting
/// side `side`.
pub open spec fn trades_in_priority_order(trades: Seq<Trade>, from: int, side: Side) -> bool {
    forall|a: int, b: int|
        from <= a < b < trades.len() ==> in_priority_order(
            side,
            #[trigger] trades[a],
            #[trigger] trades[b],
        )
}

/// Whether every trade from index `from` on was made at a price and against an order
/// that no order still on the ladder has priority over.
pub open spec fn trades_precede_ladder(
    trades: Seq<Trade>,
    from: int,
    levels: Seq<LevelView>,
    side: Side,
) -> bool {
    forall|t: int, i: int, k: int|
        from <= t < trades.len() && 0 <= i < levels.len() && 0 <= k < levels[i].orders.len() ==> {
            let order = #[trigger] levels[i].orders[k];
            let trade = #[trigger] trades[t];
            &&& !better(side, order.price, trade.price)
            &&& order.price == trade.price ==> trade.passive_order_id.0 <= order.id.0
        }
}

/// The resting order of the next trade has priority over every other order of its side:
/// no order has a better price, and none at its price has a lower id.
pub proof fn lemma_front_has_priority(
    st: MatchState,
    taker: Taker,
    limit: Option<Price>,
    level: int,
    position: int,
)
    requires
        st.book.wf(),
        can_match(st.book, taker.side, limit, st.remaining),
        0 <= level < st.book.side(taker.side.opposite()).len(),
        0 <= position < st.book.side(taker.side.opposite())[level].orders.len(),
    ensures
        ({
            let trade = next_trade(st, taker);
            let other = st.book.side(taker.side.opposite())[level].orders[position];
            &&& !better(taker.side.opposite(), other.price, trade.price)
            &&& other.price == trade.price ==> trade.passive_order_id.0 <= other.id.0
            &&& other.price == trade.price && other.id != trade.passive_order_id
                ==> trade.passive_order_id.0 < other.id.0
        }),
{
    let opposing = st.book.side(taker.side.opposite());
    assert(opposing[0].wf(taker.side.opposite()));
    assert(opposing[level].wf(taker.side.opposite()));
    if level > 0 {
        assert(better(taker.side.opposite(), opposing[0].price, opposing[level].price));
    } else if position > 0 {
        assert(opposing[0].orders[0].id.0 < opposing[0].orders[position].id.0);
    }
}

/// A matching run makes its trades in price-time priority of the resting side.
pub proof fn lemma_run_match_priority(
    st: MatchState,
    taker: Taker,
    limit: Option<Price>,
    from: int,
)
    requires
        st.book.wf(),
        0 <= from <= st.trades.len(),
        trades_in_priority_order(st.trades, from, taker.side.opposite()),
        trades_precede_ladder(
            st.trades,
            from,
            st.book.side(taker.side.opposite()),
            taker.side.opposite(),
        ),
    ensures
        trades_in_priority_order(
            run_match(st, taker, limit).trades,
            from,
            taker.side.opposite(),
        ),
    decreases st.remaining,
{
    if can_match(st.book, taker.side, limit, st.remaining) {
        let side = taker.side.opposite();
        let levels = st.book.side(side);
        let next = match_step(st, taker);
        let trade = next_trade(st, taker);
        let after = next.book.side(side);
        lemma_match_step(st, taker, limit, 0);
        assert(levels[0].wf(side));
        assert forall|a: int, b: int| from <= a < b < next.trades.len() implies in_priority_order(
            side,
            #[trigger] next.trades[a],
            #[trigger] next.trades[b],
        ) by {
            if b < st.trades.len() {
                assert(in_priority_order(side, st.trades[a], st.trades[b]));
            } else {
                let front = levels[0].orders[0];
                assert(next.trades[a] == st.trades[a]);
                assert(!better(side, front.price, st.trades[a].price));
            }
        }
        assert forall|t: int, i: int, k: int|
            from <= t < next.trades.len() && 0 <= i < after.len() && 0 <= k
                < after[i].orders.len() implies {
            let order = #[trigger] after[i].orders[k];
            let made = #[trigger] next.trades[t];
            &&& !better(side, order.price, made.price)
            &&& order.price == made.price ==> made.passive_order_id.0 <= order.id.0
        } by {
            let origin = lemma_fill_front_keeps(levels, side, trade.quantity, i, k);
            let was = levels[origin.0].orders[origin.1];
            if t < st.trades.len() {
                assert(next.trades[t] == st.trades[t]);
                assert(!better(side, was.price, st.trades[t].price));
            } else {
                lemma_front_has_priority(st, taker, limit, origin.0, origin.1);
            }
        }
        lemma_run_match_priority(next, taker, limit, from);
    }
}

} // verus!
