//! The two-sided order book of one symbol.

use vstd::prelude::*;
use crate::ladder::{
    available, best_price, fill_front, front_order, ids_below, is_snapshot, ladder_find,
    ladder_insert, ladder_remove, ladder_wf, lemma_fill_front, lemma_insert, lemma_remove,
    order_count, total_quantity, Ladder, LevelSnapshot,
};
use crate::level::LevelView;
use crate::occurrence::{
    held, hit, holding, lemma_absent_holds_nothing, lemma_found_holds, lemma_found_occurs,
    lemma_held_fill_front, lemma_held_insert, lemma_held_remove, lemma_none_at_or_above,
    lemma_occurrences_fill_front, lemma_occurrences_insert, lemma_occurrences_remove,
    occurrences,
};
use crate::order::Order;
use crate::types::{crosses, EngineError, OrderId, Price, Side};

verus! {

/// The mathematical content of an order book: both ladders, best price first.
pub struct BookView {
    pub bids: Seq<LevelView>,
    pub asks: Seq<LevelView>,
}

impl BookView {
    /// The book with nothing resting on either side.
    pub open spec fn empty() -> BookView {
        BookView { bids: Seq::empty(), asks: Seq::empty() }
    }

    /// The ladder of one side.
    pub open spec fn side(self, side: Side) -> Seq<LevelView> {
        match side {
            Side::Buy => self.bids,
            Side::Sell => self.asks,
        }
    }

    /// The book with the ladder of one side replaced.
    pub open spec fn with_side(self, side: Side, levels: Seq<LevelView>) -> BookView {
        match side {
            Side::Buy => BookView { bids: levels, ..self },
            Side::Sell => BookView { asks: levels, ..self },
        }
    }

    /// The best bid is strictly below the best ask whenever both sides hold orders.
    pub open spec fn uncrossed(self) -> bool {
        self.bids.len() > 0 && self.asks.len() > 0 ==> self.bids[0].price.0
            < self.asks[0].price.0
    }

    /// The number of resting orders that carry `id`.
    pub open spec fn occurrences(self, id: OrderId) -> nat {
        occurrences(self.bids, id) + occurrences(self.asks, id)
    }

    /// The quantity that rests on the book under `id`.
    pub open spec fn held(self, id: OrderId) -> nat {
        held(self.bids, id) + held(self.asks, id)
    }

    /// No id is carried by two resting orders.
    pub open spec fn ids_distinct(self) -> bool {
        forall|id: OrderId| #[trigger] self.occurrences(id) <= 1
    }

    /// Both ladders are well formed, the book is not crossed, and no id occurs twice.
    pub open spec fn wf(self) -> bool {
        &&& ladder_wf(self.bids, Side::Buy)
        &&& ladder_wf(self.asks, Side::Sell)
        &&& self.uncrossed()
        &&& self.ids_distinct()
    }

    /// Every resting order has an id below `bound`.
    pub open spec fn ids_below(self, bound: u64) -> bool {
        ids_below(self.bids, bound) && ids_below(self.asks, bound)
    }

    /// The number of resting orders.
    pub open spec fn order_count(self) -> nat {
        order_count(self.bids) + order_count(self.asks)
    }

    /// The quantity resting on both sides together.
    pub open spec fn total_quantity(self) -> nat {
        total_quantity(self.bids) + total_quantity(self.asks)
    }

    /// The highest bid price and the lowest ask price.
    pub open spec fn best_bid_ask(self) -> (Option<Price>, Option<Price>) {
        (best_price(self.bids), best_price(self.asks))
    }

    /// The resting order with the given id, if there is one.
    pub open spec fn find(self, id: OrderId) -> Option<Order> {
        match ladder_find(self.bids, id) {
            Some(order) => Some(order),
            None => ladder_find(self.asks, id),
        }
    }

    /// Whether `order` could rest on its side without crossing the opposite side.
    pub open spec fn accepts(self, order: Order) -> bool {
        match best_price(self.side(order.side.opposite())) {
            Some(p) => !crosses(order.side, Some(order.price), p),
            None => true,
        }
    }

    /// The book after `order` has come to rest on its side.
    pub open spec fn insert(self, order: Order) -> BookView {
        self.with_side(order.side, ladder_insert(self.side(order.side), order.side, order))
    }

    /// The book without the order that carries `id`; unchanged if there is none.
    pub open spec fn remove(self, id: OrderId) -> BookView {
        match ladder_find(self.bids, id) {
            Some(_) => BookView { bids: ladder_remove(self.bids, id), ..self },
            None => BookView { asks: ladder_remove(self.asks, id), ..self },
        }
    }

    /// The book after an incoming order on `side` has executed `quantity` units against
    /// the oldest order at the best opposing price.
    pub open spec fn pop_fill(self, side: Side, quantity: u64) -> BookView {
        self.with_side(side.opposite(), fill_front(self.side(side.opposite()), quantity))
    }
}

/// Resting a live order with the newest id on a book that accepts it keeps the book
/// well formed and adds exactly that order.
pub proof fn lemma_book_insert(book: BookView, order: Order)
    requires
        book.wf(),
        book.ids_below(order.id.0),
        book.accepts(order),
        order.live(),
        order.id.0 < u64::MAX,
    ensures
        book.insert(order).wf(),
        book.insert(order).ids_below((order.id.0 + 1) as u64),
        book.insert(order).order_count() == book.order_count() + 1,
        book.insert(order).total_quantity() == book.total_quantity() + order.remaining_quantity,
        book.insert(order).side(order.side.opposite()) == book.side(order.side.opposite()),
        book.insert(order).find(order.id) == Some(order),
        forall|id: OrderId|
            #[trigger] book.insert(order).occurrences(id) == book.occurrences(id) + hit(
                order,
                id,
            ),
        forall|id: OrderId|
            #[trigger] book.insert(order).held(id) == book.held(id) + holding(order, id),
        book.held(order.id) == 0,
{
    assert forall|id: OrderId| #[trigger] book.insert(order).held(id) == book.held(id) + holding(
        order,
        id,
    ) by {
        lemma_held_insert(book.side(order.side), order.side, order, id);
    }
    lemma_insert(book.side(order.side), order.side, order);
    crate::ladder::lemma_ids_below_weaken(
        book.side(order.side.opposite()),
        order.id.0,
        (order.id.0 + 1) as u64,
    );
    crate::ladder::lemma_find_inserted(book.side(order.side), order.side, order);
    crate::ladder::lemma_absent_below(book.side(order.side.opposite()), order.id);
    assert forall|id: OrderId|
        #[trigger] book.insert(order).occurrences(id) == book.occurrences(id) + hit(
            order,
            id,
        ) by {
        lemma_occurrences_insert(book.side(order.side), order.side, order, id);
    }
    lemma_none_at_or_above(book.bids, order.id.0, order.id);
    lemma_none_at_or_above(book.asks, order.id.0, order.id);
    lemma_absent_holds_nothing(book.bids, order.id);
    lemma_absent_holds_nothing(book.asks, order.id);
    assert forall|id: OrderId| #[trigger] book.insert(order).occurrences(id) <= 1 by {
        assert(book.occurrences(id) <= 1);
    }
}

/// What a well-formed book holds under an id is the remaining quantity of the order
/// found under it, which carries that id and has quantity left to execute.
pub proof fn lemma_book_found(book: BookView, id: OrderId)
    requires
        book.wf(),
        book.find(id) is Some,
    ensures
        book.find(id).unwrap().id == id,
        book.find(id).unwrap().live(),
        book.occurrences(id) == 1,
        book.held(id) == book.find(id).unwrap().remaining_quantity,
{
    lemma_remove(book.bids, Side::Buy, id, 0);
    lemma_remove(book.asks, Side::Sell, id, 0);
    assert(book.occurrences(id) <= 1);
    if ladder_find(book.bids, id) is Some {
        lemma_found_occurs(book.bids, id);
        lemma_found_holds(book.bids, Side::Buy, id);
        lemma_absent_holds_nothing(book.asks, id);
    } else {
        lemma_found_occurs(book.asks, id);
        lemma_found_holds(book.asks, Side::Sell, id);
        lemma_absent_holds_nothing(book.bids, id);
    }
}

/// Removing an order by id keeps the book well formed and takes exactly that order off.
pub proof fn lemma_book_remove(book: BookView, id: OrderId, bound: u64)
    requires
        book.wf(),
    ensures
        book.remove(id).wf(),
        book.ids_below(bound) ==> book.remove(id).ids_below(bound),
        match book.find(id) {
            Some(order) => {
                &&& order.id == id
                &&& order.live()
                &&& book.remove(id).order_count() + 1 == book.order_count()
                &&& book.remove(id).total_quantity() + order.remaining_quantity
                    == book.total_quantity()
            },
            None => book.remove(id) == book,
        },
        forall|other: OrderId|
            #[trigger] book.remove(id).occurrences(other) + (if book.find(id) is Some && other
                == id {
                1nat
            } else {
                0nat
            }) == book.occurrences(other),
        book.remove(id).find(id) is None,
        forall|other: OrderId| #[trigger] book.remove(id).held(other) <= book.held(other),
{
    lemma_remove(book.bids, Side::Buy, id, bound);
    lemma_remove(book.asks, Side::Sell, id, bound);
    assert forall|other: OrderId| #[trigger] book.remove(id).held(other) <= book.held(other) by {
        lemma_held_remove(book.bids, id, other);
        lemma_held_remove(book.asks, id, other);
    }
    assert forall|other: OrderId|
        #[trigger] book.remove(id).occurrences(other) + (if book.find(id) is Some && other == id {
            1nat
        } else {
            0nat
        }) == book.occurrences(other) by {
        lemma_occurrences_remove(book.bids, id, other);
        lemma_occurrences_remove(book.asks, id, other);
    }
    assert forall|other: OrderId| #[trigger] book.remove(id).occurrences(other) <= 1 by {
        assert(book.occurrences(other) <= 1);
    }
    let after = book.remove(id);
    assert(book.occurrences(id) <= 1);
    assert(after.occurrences(id) + (if book.find(id) is Some {
        1nat
    } else {
        0nat
    }) == book.occurrences(id));
    if after.find(id) is Some {
        if ladder_find(after.bids, id) is Some {
            crate::occurrence::lemma_found_occurs(after.bids, id);
        } else {
            crate::occurrence::lemma_found_occurs(after.asks, id);
        }
        assert(after.occurrences(id) >= 1);
        assert(book.find(id) is None);
        assert(after == book);
    }
}

/// Executing against the oldest order at the best opposing price keeps the book well
/// formed and takes exactly the executed quantity off it.
pub proof fn lemma_book_pop_fill(book: BookView, side: Side, quantity: u64, bound: u64)
    requires
        book.wf(),
        front_order(book.side(side.opposite())) is Some,
        0 < quantity <= front_order(book.side(side.opposite())).unwrap().remaining_quantity,
    ensures
        book.pop_fill(side, quantity).wf(),
        book.ids_below(bound) ==> book.pop_fill(side, quantity).ids_below(bound),
        book.pop_fill(side, quantity).side(side) == book.side(side),
        book.pop_fill(side, quantity).total_quantity() + quantity == book.total_quantity(),
        book.pop_fill(side, quantity).order_count() + (if quantity == front_order(
            book.side(side.opposite()),
        ).unwrap().remaining_quantity {
            1nat
        } else {
            0nat
        }) == book.order_count(),
        forall|id: OrderId|
            #[trigger] book.pop_fill(side, quantity).occurrences(id) <= book.occurrences(id),
        forall|id: OrderId| #[trigger] book.pop_fill(side, quantity).held(id) <= book.held(id),
{
    lemma_fill_front(book.side(side.opposite()), side.opposite(), quantity, bound);
    assert(book.side(side.opposite())[0].wf(side.opposite()));
    assert forall|id: OrderId| #[trigger] book.pop_fill(side, quantity).held(id) <= book.held(
        id,
    ) by {
        lemma_held_fill_front(book.side(side.opposite()), quantity, id);
    }
    assert forall|id: OrderId|
        #[trigger] book.pop_fill(side, quantity).occurrences(id) <= book.occurrences(id) by {
        lemma_occurrences_fill_front(book.side(side.opposite()), quantity, id);
    }
    assert forall|id: OrderId| #[trigger] book.pop_fill(side, quantity).occurrences(id)
        <= 1 by {
        assert(book.occurrences(id) <= 1);
    }
}

/// The order book of one symbol: bids in descending and asks in ascending price order.
#[derive(Clone, Debug)]
pub struct OrderBook {
    bids: Ladder,
    asks: Ladder,
}

impl View for OrderBook {
    type V = BookView;

    closed spec fn view(&self) -> BookView {
        BookView { bids: self.bids@, asks: self.asks@ }
    }
}

impl OrderBook {
    /// Each ladder holds its own side and the book is well formed.
    pub closed spec fn wf(&self) -> bool {
        &&& self.bids.spec_side() == Side::Buy
        &&& self.asks.spec_side() == Side::Sell
        &&& self@.wf()
    }

    /// A well-formed structure has a well-formed content.
    pub proof fn lemma_wf(&self)
        requires
            self.wf(),
        ensures
            self@.wf(),
    {
    }

    /// A book with nothing resting on either side.
    pub fn new() -> (book: OrderBook)
        ensures
            book.wf(),
            book@ == BookView::empty(),
    {
        OrderBook { bids: Ladder::new(Side::Buy), asks: Ladder::new(Side::Sell) }
    }

    /// The highest bid price and the lowest ask price; each is absent while its side is
    /// empty.
    pub fn best_bid_ask(&self) -> (best: (Option<Price>, Option<Price>))
        ensures
            best == self@.best_bid_ask(),
    {
        (self.bids.best_price(), self.asks.best_price())
    }

    /// The resting order with the given id.
    pub fn get(&self, id: OrderId) -> (found: Result<Order, EngineError>)
        ensures
            found == (match self@.find(id) {
                Some(order) => Ok::<Order, EngineError>(order),
                None => Err(EngineError::OrderNotFound),
            }),
    {
        match self.bids.find(id) {
            Some(order) => Ok(order),
            None => match self.asks.find(id) {
                Some(order) => Ok(order),
                None => Err(EngineError::OrderNotFound),
            },
        }
    }

    /// Rests `order` at the tail of the level at its price on its side, opening the level
    /// in sorted position if it does not exist yet.
    pub fn insert(&mut self, order: Order)
        requires
            old(self).wf(),
            old(self)@.ids_below(order.id.0),
            old(self)@.accepts(order),
            order.live(),
            order.id.0 < u64::MAX,
        ensures
            final(self).wf(),
            final(self)@ == old(self)@.insert(order),
            final(self)@.ids_below((order.id.0 + 1) as u64),
    {
        proof {
            lemma_book_insert(self@, order);
        }
        match order.side {
            Side::Buy => self.bids.insert(order),
            Side::Sell => self.asks.insert(order),
        }
    }

    /// Takes the order with the given id off the book. The orders behind it keep their
    /// relative order, and its level disappears if it was the last order there.
    pub fn remove(&mut self, id: OrderId) -> (removed: Result<Order, EngineError>)
        requires
            old(self).wf(),
        ensures
            final(self).wf(),
            final(self)@ == old(self)@.remove(id),
            removed == (match old(self)@.find(id) {
                Some(order) => Ok::<Order, EngineError>(order),
                None => Err(EngineError::OrderNotFound),
            }),
            removed is Err ==> final(self)@ == old(self)@,
    {
        proof {
            lemma_book_remove(self@, id, 0);
        }
        match self.bids.remove(id) {
            Some(order) => Ok(order),
            None => match self.asks.remove(id) {
                Some(order) => Ok(order),
                None => Err(EngineError::OrderNotFound),
            },
        }
    }

    /// The oldest order at the best price on the side opposite to `side`: the order an
    /// incoming order on `side` would trade against first.
    pub fn peek_best_opposing(&self, side: Side) -> (order: Option<Order>)
        ensures
            order == front_order(self@.side(side.opposite())),
    {
        match side {
            Side::Buy => self.asks.front(),
            Side::Sell => self.bids.front(),
        }
    }

    /// Executes `quantity` units of the order that [`Self::peek_best_opposing`] reports.
    /// The orders behind it keep their places; an order executed in full leaves the book.
    pub fn pop_fill(&mut self, side: Side, quantity: u64)
        requires
            old(self).wf(),
            front_order(old(self)@.side(side.opposite())) is Some,
            0 < quantity <= front_order(
                old(self)@.side(side.opposite()),
            ).unwrap().remaining_quantity,
        ensures
            final(self).wf(),
            final(self)@ == old(self)@.pop_fill(side, quantity),
    {
        proof {
            lemma_book_pop_fill(self@, side, quantity, 0);
        }
        match side {
            Side::Buy => self.asks.fill_front(quantity),
            Side::Sell => self.bids.fill_front(quantity),
        }
    }

    /// Whether an incoming order on `side` bounded by `limit` could execute at least
    /// `quantity` units against the opposite side.
    pub fn can_fill(&self, side: Side, limit: Option<Price>, quantity: u64) -> (b: bool)
        requires
            quantity > 0,
        ensures
            b == (available(self@.side(side.opposite()), side, limit, 0) >= quantity),
    {
        match side {
            Side::Buy => self.asks.can_fill(side, limit, quantity),
            Side::Sell => self.bids.can_fill(side, limit, quantity),
        }
    }

    /// The levels of one side from the best price outward: all of them, or at most
    /// `depth` if a depth is given. The book is left as it is.
    pub fn snapshot(&self, side: Side, depth: Option<usize>) -> (snapshots: Vec<LevelSnapshot>)
        ensures
            is_snapshot(snapshots@, self@.side(side), depth),
    {
        match side {
            Side::Buy => self.bids.snapshot(depth),
            Side::Sell => self.asks.snapshot(depth),
        }
    }
}

} // verus!
