//! One side of the book: price levels in priority order, best price first.

use vstd::prelude::*;
use crate::level::{
    lemma_level_fill, lemma_level_push, lemma_level_remove, lemma_level_single,
    lemma_order_index_of, lemma_quantity_push, lemma_quantity_remove, lemma_quantity_single,
    lemma_quantity_update, order_index_of, LevelView, PriceLevel,
};
use crate::order::Order;
use crate::sums::{lemma_sum_insert, lemma_sum_remove, lemma_sum_update, seq_sum};
use crate::types::{better, can_cross, crosses, is_better, OrderId, Price, Side};

verus! {

/// Every level is well formed for `side`, and prices strictly lose priority from one level
/// to the next: bids descend, asks ascend.
pub open spec fn ladder_wf(levels: Seq<LevelView>, side: Side) -> bool {
    &&& forall|i: int| 0 <= i < levels.len() ==> (#[trigger] levels[i]).wf(side)
    &&& forall|i: int, j: int|
        0 <= i < j < levels.len() ==> better(
            side,
            (#[trigger] levels[i]).price,
            (#[trigger] levels[j]).price,
        )
}

/// Every order on the ladder has an id below `bound`.
pub open spec fn ids_below(levels: Seq<LevelView>, bound: u64) -> bool {
    forall|i: int| 0 <= i < levels.len() ==> (#[trigger] levels[i]).ids_below(bound)
}

/// The price of the first level, if there is one.
pub open spec fn best_price(levels: Seq<LevelView>) -> Option<Price> {
    if levels.len() > 0 {
        Some(levels[0].price)
    } else {
        None
    }
}

/// The oldest order at the best price, if there is one.
pub open spec fn front_order(levels: Seq<LevelView>) -> Option<Order> {
    if levels.len() > 0 && levels[0].orders.len() > 0 {
        Some(levels[0].orders[0])
    } else {
        None
    }
}

/// The number of orders at each level.
pub open spec fn level_sizes(levels: Seq<LevelView>) -> Seq<nat> {
    Seq::new(levels.len(), |i: int| levels[i].orders.len())
}

/// The aggregate quantity at each level.
pub open spec fn level_quantities(levels: Seq<LevelView>) -> Seq<nat> {
    Seq::new(levels.len(), |i: int| levels[i].quantity())
}

/// The number of orders on the ladder.
pub open spec fn order_count(levels: Seq<LevelView>) -> nat {
    seq_sum(level_sizes(levels))
}

/// The quantity resting on the ladder.
pub open spec fn total_quantity(levels: Seq<LevelView>) -> nat {
    seq_sum(level_quantities(levels))
}

/// The index of the first level at or after `from` whose price does not have priority
/// over `price`; the number of levels if every one of them has.
pub open spec fn insert_index(levels: Seq<LevelView>, side: Side, price: Price, from: int) -> int
    decreases levels.len() - from,
{
    if 0 <= from < levels.len() && better(side, levels[from].price, price) {
        insert_index(levels, side, price, from + 1)
    } else {
        from
    }
}

/// The ladder after `order` has joined it: behind the orders already at its price, or in a
/// new level placed where its price belongs.
pub open spec fn ladder_insert(levels: Seq<LevelView>, side: Side, order: Order) -> Seq<
    LevelView,
> {
    let i = insert_index(levels, side, order.price, 0);
    if i < levels.len() && levels[i].price == order.price {
        levels.update(
            i,
            LevelView { price: order.price, orders: levels[i].orders.push(order) },
        )
    } else {
        levels.insert(i, LevelView { price: order.price, orders: seq![order] })
    }
}

/// The index of the first level at or after `from` that holds an order with `id`; the
/// number of levels if none does.
pub open spec fn level_index_of(levels: Seq<LevelView>, id: OrderId, from: int) -> int
    decreases levels.len() - from,
{
    if 0 <= from < levels.len() && !levels[from].contains(id) {
        level_index_of(levels, id, from + 1)
    } else {
        from
    }
}

/// The order with `id`, if it rests on the ladder.
pub open spec fn ladder_find(levels: Seq<LevelView>, id: OrderId) -> Option<Order> {
    let li = level_index_of(levels, id, 0);
    if li < levels.len() {
        Some(levels[li].orders[order_index_of(levels[li].orders, id, 0)])
    } else {
        None
    }
}

/// The ladder without the order at position `oi` of level `li`. The other orders keep
/// their relative order, and a level that loses its last order disappears.
pub open spec fn remove_at(levels: Seq<LevelView>, li: int, oi: int) -> Seq<LevelView> {
    if levels[li].orders.len() == 1 {
        levels.remove(li)
    } else {
        levels.update(
            li,
            LevelView { price: levels[li].price, orders: levels[li].orders.remove(oi) },
        )
    }
}

/// The ladder without the order that carries `id`; unchanged if there is none.
pub open spec fn ladder_remove(levels: Seq<LevelView>, id: OrderId) -> Seq<LevelView> {
    let li = level_index_of(levels, id, 0);
    if li < levels.len() {
        remove_at(levels, li, order_index_of(levels[li].orders, id, 0))
    } else {
        levels
    }
}

/// The ladder after `quantity` units of the oldest order at the best price have executed.
/// An order executed in full leaves the ladder; otherwise it keeps its place.
pub open spec fn fill_front(levels: Seq<LevelView>, quantity: u64) -> Seq<LevelView> {
    let front = levels[0].orders[0];
    if quantity == front.remaining_quantity {
        remove_at(levels, 0, 0)
    } else {
        levels.update(
            0,
            LevelView {
                price: levels[0].price,
                orders: levels[0].orders.update(0, front.filled_by(quantity)),
            },
        )
    }
}

/// The quantity an incoming order on `taker_side` bounded by `limit` could execute
/// against the levels at or after `from`: the sum over the leading levels it crosses.
pub open spec fn available(
    levels: Seq<LevelView>,
    taker_side: Side,
    limit: Option<Price>,
    from: int,
) -> nat
    decreases levels.len() - from,
{
    if 0 <= from < levels.len() && crosses(taker_side, limit, levels[from].price) {
        levels[from].quantity() + available(levels, taker_side, limit, from + 1)
    } else {
        0
    }
}

/// Where [`insert_index`] lands: every level before it has priority over `price`, and
/// the level at it, if any, has not.
pub proof fn lemma_insert_index(levels: Seq<LevelView>, side: Side, price: Price, from: int)
    requires
        0 <= from <= levels.len(),
    ensures
        from <= insert_index(levels, side, price, from) <= levels.len(),
        forall|k: int|
            from <= k < insert_index(levels, side, price, from) ==> better(
                side,
                (#[trigger] levels[k]).price,
                price,
            ),
        insert_index(levels, side, price, from) < levels.len() ==> !better(
            side,
            levels[insert_index(levels, side, price, from)].price,
            price,
        ),
    decreases levels.len() - from,
{
    if from < levels.len() && better(side, levels[from].price, price) {
        lemma_insert_index(levels, side, price, from + 1);
    }
}

/// Where [`level_index_of`] lands: on the first level that holds the id.
pub proof fn lemma_level_index_of(levels: Seq<LevelView>, id: OrderId, from: int)
    requires
        0 <= from <= levels.len(),
    ensures
        from <= level_index_of(levels, id, from) <= levels.len(),
        level_index_of(levels, id, from) < levels.len() ==> levels[level_index_of(
            levels,
            id,
            from,
        )].contains(id),
        forall|k: int|
            from <= k < level_index_of(levels, id, from) ==> !(#[trigger] levels[k]).contains(id),
    decreases levels.len() - from,
{
    if from < levels.len() && !levels[from].contains(id) {
        lemma_level_index_of(levels, id, from + 1);
    }
}

/// Ids below one bound are below every larger bound.
pub proof fn lemma_ids_below_weaken(levels: Seq<LevelView>, bound: u64, larger: u64)
    requires
        ids_below(levels, bound),
        bound <= larger,
    ensures
        ids_below(levels, larger),
{
    assert forall|i: int| 0 <= i < levels.len() implies (#[trigger] levels[i]).ids_below(
        larger,
    ) by {
        assert(levels[i].ids_below(bound));
    }
}

/// Replacing a level by a well-formed level at the same price keeps the ladder well
/// formed and exchanges that level's share of the totals.
pub proof fn lemma_replace_level(
    levels: Seq<LevelView>,
    side: Side,
    bound: u64,
    i: int,
    level: LevelView,
)
    requires
        ladder_wf(levels, side),
        0 <= i < levels.len(),
        level.wf(side),
        level.price == levels[i].price,
    ensures
        ladder_wf(levels.update(i, level), side),
        ids_below(levels, bound) && level.ids_below(bound) ==> ids_below(
            levels.update(i, level),
            bound,
        ),
        order_count(levels.update(i, level)) + levels[i].orders.len() == order_count(levels)
            + level.orders.len(),
        total_quantity(levels.update(i, level)) + levels[i].quantity() == total_quantity(levels)
            + level.quantity(),
{
    let r = levels.update(i, level);
    assert forall|a: int| 0 <= a < r.len() implies (#[trigger] r[a]).wf(side) && (ids_below(
        levels,
        bound,
    ) && level.ids_below(bound) ==> r[a].ids_below(bound)) by {
        if a != i {
            assert(levels[a].wf(side));
            assert(ids_below(levels, bound) ==> levels[a].ids_below(bound));
        }
    }
    assert forall|a: int, b: int| 0 <= a < b < r.len() implies better(
        side,
        (#[trigger] r[a]).price,
        (#[trigger] r[b]).price,
    ) by {
        assert(better(side, levels[a].price, levels[b].price));
    }
    assert(level_sizes(r) =~= level_sizes(levels).update(i, level.orders.len()));
    lemma_sum_update(level_sizes(levels), i, level.orders.len());
    assert(level_quantities(r) =~= level_quantities(levels).update(i, level.quantity()));
    lemma_sum_update(level_quantities(levels), i, level.quantity());
}

/// Placing a well-formed level between the levels that have priority over its price and
/// those over which it has priority keeps the ladder well formed and adds its share to
/// the totals.
pub proof fn lemma_add_level(
    levels: Seq<LevelView>,
    side: Side,
    bound: u64,
    i: int,
    level: LevelView,
)
    requires
        ladder_wf(levels, side),
        0 <= i <= levels.len(),
        level.wf(side),
        forall|k: int| 0 <= k < i ==> better(side, (#[trigger] levels[k]).price, level.price),
        forall|k: int|
            i <= k < levels.len() ==> better(side, level.price, (#[trigger] levels[k]).price),
    ensures
        ladder_wf(levels.insert(i, level), side),
        ids_below(levels, bound) && level.ids_below(bound) ==> ids_below(
            levels.insert(i, level),
            bound,
        ),
        order_count(levels.insert(i, level)) == order_count(levels) + level.orders.len(),
        total_quantity(levels.insert(i, level)) == total_quantity(levels) + level.quantity(),
{
    let r = levels.insert(i, level);
    levels.insert_ensures(i, level);
    assert forall|a: int| 0 <= a < r.len() implies (#[trigger] r[a]).wf(side) && (ids_below(
        levels,
        bound,
    ) && level.ids_below(bound) ==> r[a].ids_below(bound)) by {
        if a < i {
            assert(r[a] == levels[a]);
            assert(ids_below(levels, bound) ==> levels[a].ids_below(bound));
        } else if a > i {
            assert(r[a] == levels[a - 1]);
            assert(ids_below(levels, bound) ==> levels[a - 1].ids_below(bound));
        }
    }
    assert forall|a: int, b: int| 0 <= a < b < r.len() implies better(
        side,
        (#[trigger] r[a]).price,
        (#[trigger] r[b]).price,
    ) by {
        if a < i {
            assert(r[a] == levels[a]);
        } else if a > i {
            assert(r[a] == levels[a - 1]);
        }
        if b < i {
            assert(r[b] == levels[b]);
        } else if b > i {
            assert(r[b] == levels[b - 1]);
        }
        if a != i && b != i {
            let a0 = if a < i { a } else { a - 1 };
            let b0 = if b < i { b } else { b - 1 };
            assert(better(side, levels[a0].price, levels[b0].price));
        }
    }
    assert(level_sizes(r) =~= level_sizes(levels).insert(i, level.orders.len()));
    lemma_sum_insert(level_sizes(levels), i, level.orders.len());
    assert(level_quantities(r) =~= level_quantities(levels).insert(i, level.quantity()));
    lemma_sum_insert(level_quantities(levels), i, level.quantity());
}

/// Dropping a level keeps the ladder well formed and takes its share out of the totals.
pub proof fn lemma_drop_level(levels: Seq<LevelView>, side: Side, bound: u64, i: int)
    requires
        ladder_wf(levels, side),
        0 <= i < levels.len(),
    ensures
        ladder_wf(levels.remove(i), side),
        ids_below(levels, bound) ==> ids_below(levels.remove(i), bound),
        order_count(levels.remove(i)) + levels[i].orders.len() == order_count(levels),
        total_quantity(levels.remove(i)) + levels[i].quantity() == total_quantity(levels),
{
    let r = levels.remove(i);
    levels.remove_ensures(i);
    assert forall|a: int| 0 <= a < r.len() implies (#[trigger] r[a]).wf(side) && (ids_below(
        levels,
        bound,
    ) ==> r[a].ids_below(bound)) by {
        let a0 = if a < i { a } else { a + 1 };
        assert(r[a] == levels[a0]);
        assert(ids_below(levels, bound) ==> levels[a0].ids_below(bound));
    }
    assert forall|a: int, b: int| 0 <= a < b < r.len() implies better(
        side,
        (#[trigger] r[a]).price,
        (#[trigger] r[b]).price,
    ) by {
        let a0 = if a < i { a } else { a + 1 };
        let b0 = if b < i { b } else { b + 1 };
        assert(r[a] == levels[a0] && r[b] == levels[b0]);
        assert(better(side, levels[a0].price, levels[b0].price));
    }
    assert(level_sizes(r) =~= level_sizes(levels).remove(i));
    lemma_sum_remove(level_sizes(levels), i);
    assert(level_quantities(r) =~= level_quantities(levels).remove(i));
    lemma_sum_remove(level_quantities(levels), i);
}

/// Inserting a live order with the newest id keeps the ladder well formed, adds exactly
/// that order, and leaves as best price the better of the old best price and the order's.
pub proof fn lemma_insert(levels: Seq<LevelView>, side: Side, order: Order)
    requires
        ladder_wf(levels, side),
        order.live(),
        order.side == side,
        ids_below(levels, order.id.0),
        order.id.0 < u64::MAX,
    ensures
        ladder_wf(ladder_insert(levels, side, order), side),
        ids_below(ladder_insert(levels, side, order), (order.id.0 + 1) as u64),
        order_count(ladder_insert(levels, side, order)) == order_count(levels) + 1,
        total_quantity(ladder_insert(levels, side, order)) == total_quantity(levels)
            + order.remaining_quantity,
        best_price(ladder_insert(levels, side, order)) == Some(
            if levels.len() > 0 && !better(side, order.price, levels[0].price) {
                levels[0].price
            } else {
                order.price
            },
        ),
{
    let i = insert_index(levels, side, order.price, 0);
    let bound = (order.id.0 + 1) as u64;
    lemma_insert_index(levels, side, order.price, 0);
    lemma_ids_below_weaken(levels, order.id.0, bound);
    if i < levels.len() && levels[i].price == order.price {
        let grown = LevelView { price: order.price, orders: levels[i].orders.push(order) };
        assert(levels[i].wf(side) && levels[i].ids_below(order.id.0));
        lemma_level_push(levels[i], side, order);
        lemma_replace_level(levels, side, bound, i, grown);
        lemma_quantity_push(levels[i].orders, order);
        if i > 0 {
            assert(better(side, levels[0].price, order.price));
        }
    } else {
        let fresh = LevelView { price: order.price, orders: seq![order] };
        lemma_level_single(side, order);
        assert forall|k: int| i <= k < levels.len() implies better(
            side,
            order.price,
            (#[trigger] levels[k]).price,
        ) by {
            assert(!better(side, levels[i].price, order.price));
            if k > i {
                assert(better(side, levels[i].price, levels[k].price));
            }
        }
        lemma_add_level(levels, side, bound, i, fresh);
        levels.insert_ensures(i, fresh);
        if i > 0 {
            assert(better(side, levels[0].price, order.price));
        }
    }
}

/// An order that has just joined the ladder with the newest id is found under that id.
pub proof fn lemma_find_inserted(levels: Seq<LevelView>, side: Side, order: Order)
    requires
        ids_below(levels, order.id.0),
    ensures
        ladder_find(ladder_insert(levels, side, order), order.id) == Some(order),
{
    let i = insert_index(levels, side, order.price, 0);
    let r = ladder_insert(levels, side, order);
    lemma_insert_index(levels, side, order.price, 0);
    lemma_level_index_of(r, order.id, 0);
    let li = level_index_of(r, order.id, 0);
    if i < levels.len() && levels[i].price == order.price {
        let grown = levels[i].orders.push(order);
        lemma_order_index_of(grown, order.id, 0);
        assert(levels[i].ids_below(order.id.0));
        assert forall|k: int| 0 <= k < levels[i].orders.len() implies (#[trigger] grown[k]).id
            != order.id by {
            assert(levels[i].orders[k].id.0 < order.id.0);
        }
        assert(grown[levels[i].orders.len() as int] == order);
        assert(order_index_of(grown, order.id, 0) == levels[i].orders.len());
        assert(r[i].orders == grown);
        assert(r[i].contains(order.id));
    } else {
        let fresh = LevelView { price: order.price, orders: seq![order] };
        levels.insert_ensures(i, fresh);
        assert(r[i] == fresh);
        assert(order_index_of(seq![order], order.id, 0) == 0);
        assert(r[i].contains(order.id));
    }
    if li < i {
        lemma_order_index_of(r[li].orders, order.id, 0);
        let k = order_index_of(r[li].orders, order.id, 0);
        assert(r[li] == levels[li]);
        assert(levels[li].ids_below(order.id.0));
        assert(levels[li].orders[k].id.0 < order.id.0);
    }
}

/// Taking one order out keeps the ladder well formed, removes exactly that order's
/// quantity, and cannot improve the best price.
pub proof fn lemma_remove_at(levels: Seq<LevelView>, side: Side, li: int, oi: int, bound: u64)
    requires
        ladder_wf(levels, side),
        0 <= li < levels.len(),
        0 <= oi < levels[li].orders.len(),
    ensures
        ladder_wf(remove_at(levels, li, oi), side),
        ids_below(levels, bound) ==> ids_below(remove_at(levels, li, oi), bound),
        order_count(remove_at(levels, li, oi)) + 1 == order_count(levels),
        total_quantity(remove_at(levels, li, oi)) + levels[li].orders[oi].remaining_quantity
            == total_quantity(levels),
        remove_at(levels, li, oi).len() > 0 ==> !better(
            side,
            remove_at(levels, li, oi)[0].price,
            levels[0].price,
        ),
{
    let r = remove_at(levels, li, oi);
    assert(levels[li].wf(side));
    assert(ids_below(levels, bound) ==> levels[li].ids_below(bound));
    if levels[li].orders.len() == 1 {
        lemma_drop_level(levels, side, bound, li);
        levels.remove_ensures(li);
        lemma_quantity_single(levels[li].orders);
        if r.len() > 0 && li == 0 {
            assert(r[0] == levels[1]);
            assert(better(side, levels[0].price, levels[1].price));
        }
    } else {
        let shrunk = LevelView { price: levels[li].price, orders: levels[li].orders.remove(oi) };
        lemma_level_remove(levels[li], side, bound, oi);
        levels[li].orders.remove_ensures(oi);
        lemma_replace_level(levels, side, bound, li, shrunk);
        lemma_quantity_remove(levels[li].orders, oi);
    }
}

/// Removing the order with a given id keeps the ladder well formed, takes exactly that
/// order off it, and cannot improve the best price. A ladder that does not hold the id is
/// left as it is.
pub proof fn lemma_remove(levels: Seq<LevelView>, side: Side, id: OrderId, bound: u64)
    requires
        ladder_wf(levels, side),
    ensures
        ladder_wf(ladder_remove(levels, id), side),
        ids_below(levels, bound) ==> ids_below(ladder_remove(levels, id), bound),
        match ladder_find(levels, id) {
            Some(order) => {
                &&& order.id == id
                &&& order.live()
                &&& order.side == side
                &&& order_count(ladder_remove(levels, id)) + 1 == order_count(levels)
                &&& total_quantity(ladder_remove(levels, id)) + order.remaining_quantity
                    == total_quantity(levels)
            },
            None => ladder_remove(levels, id) == levels,
        },
        ladder_remove(levels, id).len() > 0 ==> levels.len() > 0 && !better(
            side,
            ladder_remove(levels, id)[0].price,
            levels[0].price,
        ),
{
    lemma_level_index_of(levels, id, 0);
    let li = level_index_of(levels, id, 0);
    if li < levels.len() {
        lemma_order_index_of(levels[li].orders, id, 0);
        let oi = order_index_of(levels[li].orders, id, 0);
        lemma_remove_at(levels, side, li, oi, bound);
        assert(levels[li].wf(side));
    }
}

/// Executing part or all of the oldest order at the best price keeps the ladder well
/// formed, removes exactly the executed quantity, and cannot improve the best price.
pub proof fn lemma_fill_front(levels: Seq<LevelView>, side: Side, quantity: u64, bound: u64)
    requires
        ladder_wf(levels, side),
        levels.len() > 0,
        0 < quantity <= levels[0].orders[0].remaining_quantity,
    ensures
        ladder_wf(fill_front(levels, quantity), side),
        ids_below(levels, bound) ==> ids_below(fill_front(levels, quantity), bound),
        order_count(fill_front(levels, quantity)) + (if quantity
            == levels[0].orders[0].remaining_quantity {
            1nat
        } else {
            0nat
        }) == order_count(levels),
        total_quantity(fill_front(levels, quantity)) + quantity == total_quantity(levels),
        fill_front(levels, quantity).len() > 0 ==> !better(
            side,
            fill_front(levels, quantity)[0].price,
            levels[0].price,
        ),
{
    assert(levels[0].wf(side));
    assert(ids_below(levels, bound) ==> levels[0].ids_below(bound));
    let front = levels[0].orders[0];
    if quantity == front.remaining_quantity {
        lemma_remove_at(levels, side, 0, 0, bound);
    } else {
        let changed = LevelView {
            price: levels[0].price,
            orders: levels[0].orders.update(0, front.filled_by(quantity)),
        };
        lemma_level_fill(levels[0], side, bound, quantity);
        lemma_replace_level(levels, side, bound, 0, changed);
        lemma_quantity_update(levels[0].orders, 0, front.filled_by(quantity));
    }
}

/// Two ladders of the same length that agree, from `from` on, on the price and quantity
/// of each level offer the same quantity from there on.
pub proof fn lemma_available_agree(
    a: Seq<LevelView>,
    b: Seq<LevelView>,
    taker_side: Side,
    limit: Option<Price>,
    from: int,
)
    requires
        a.len() == b.len(),
        0 <= from,
        forall|k: int|
            from <= k < a.len() ==> (#[trigger] a[k]).price == b[k].price && a[k].quantity()
                == b[k].quantity(),
    ensures
        available(a, taker_side, limit, from) == available(b, taker_side, limit, from),
    decreases a.len() - from,
{
    if from < a.len() {
        assert(a[from].price == b[from].price);
        lemma_available_agree(a, b, taker_side, limit, from + 1);
    }
}

/// Without its first level a ladder offers, from any level on, what the whole ladder
/// offers from the level after.
pub proof fn lemma_available_shift(
    levels: Seq<LevelView>,
    taker_side: Side,
    limit: Option<Price>,
    from: int,
)
    requires
        levels.len() > 0,
        0 <= from,
    ensures
        available(levels.remove(0), taker_side, limit, from) == available(
            levels,
            taker_side,
            limit,
            from + 1,
        ),
    decreases levels.len() - from,
{
    levels.remove_ensures(0);
    if from < levels.len() - 1 {
        assert(levels.remove(0)[from] == levels[from + 1]);
        lemma_available_shift(levels, taker_side, limit, from + 1);
    }
}

/// Executing `quantity` units at the best price, which the incoming order crosses,
/// leaves exactly that much less for it to execute.
pub proof fn lemma_available_after_fill(
    levels: Seq<LevelView>,
    side: Side,
    taker_side: Side,
    limit: Option<Price>,
    quantity: u64,
)
    requires
        ladder_wf(levels, side),
        levels.len() > 0,
        crosses(taker_side, limit, levels[0].price),
        0 < quantity <= levels[0].orders[0].remaining_quantity,
    ensures
        available(fill_front(levels, quantity), taker_side, limit, 0) + quantity == available(
            levels,
            taker_side,
            limit,
            0,
        ),
{
    assert(levels[0].wf(side));
    let front = levels[0].orders[0];
    let after = fill_front(levels, quantity);
    if quantity == front.remaining_quantity && levels[0].orders.len() == 1 {
        lemma_available_shift(levels, taker_side, limit, 0);
        lemma_quantity_single(levels[0].orders);
    } else {
        if quantity == front.remaining_quantity {
            lemma_quantity_remove(levels[0].orders, 0);
        } else {
            lemma_quantity_update(levels[0].orders, 0, front.filled_by(quantity));
        }
        lemma_available_agree(after, levels, taker_side, limit, 1);
    }
}

/// Every order on the ladder after an execution at the best price was on it before,
/// under the same id and at the same price.
pub proof fn lemma_fill_front_keeps(
    levels: Seq<LevelView>,
    side: Side,
    quantity: u64,
    level: int,
    position: int,
) -> (origin: (int, int))
    requires
        ladder_wf(levels, side),
        levels.len() > 0,
        0 < quantity <= levels[0].orders[0].remaining_quantity,
        0 <= level < fill_front(levels, quantity).len(),
        0 <= position < fill_front(levels, quantity)[level].orders.len(),
    ensures
        0 <= origin.0 < levels.len(),
        0 <= origin.1 < levels[origin.0].orders.len(),
        levels[origin.0].orders[origin.1].id == fill_front(
            levels,
            quantity,
        )[level].orders[position].id,
        levels[origin.0].orders[origin.1].price == fill_front(
            levels,
            quantity,
        )[level].orders[position].price,
{
    assert(levels[0].wf(side));
    let front = levels[0].orders[0];
    if quantity == front.remaining_quantity {
        if levels[0].orders.len() == 1 {
            levels.remove_ensures(0);
            (level + 1, position)
        } else {
            levels[0].orders.remove_ensures(0);
            if level == 0 {
                (0, position + 1)
            } else {
                (level, position)
            }
        }
    } else {
        (level, position)
    }
}

/// A ladder whose ids are all below a bound holds no order with an id at or above it.
pub proof fn lemma_absent_below(levels: Seq<LevelView>, id: OrderId)
    requires
        ids_below(levels, id.0),
    ensures
        ladder_find(levels, id) is None,
{
    lemma_level_index_of(levels, id, 0);
    let li = level_index_of(levels, id, 0);
    if li < levels.len() {
        lemma_order_index_of(levels[li].orders, id, 0);
        assert(levels[li].ids_below(id.0));
        assert(levels[li].orders[order_index_of(levels[li].orders, id, 0)].id.0 < id.0);
    }
}

/// Aggregate view of one price level, as reported by a depth snapshot.
#[derive(Clone, Copy, Debug, PartialEq, Eq, Structural)]
pub struct LevelSnapshot {
    pub price: Price,
    /// The sum of the remaining quantities of the orders at this price.
    pub quantity: u128,
    pub order_count: usize,
}

/// The number of levels a snapshot of `depth` levels reports from a ladder of `len`.
pub open spec fn snapshot_len(len: nat, depth: Option<usize>) -> nat {
    match depth {
        Some(d) => if d < len {
            d as nat
        } else {
            len
        },
        None => len,
    }
}

/// Whether `snapshots` reports, level by level from the best price outward, the price,
/// aggregate quantity and order count of the first levels of the ladder, as many as
/// `depth` asks for.
pub open spec fn is_snapshot(
    snapshots: Seq<LevelSnapshot>,
    levels: Seq<LevelView>,
    depth: Option<usize>,
) -> bool {
    &&& snapshots.len() == snapshot_len(levels.len(), depth)
    &&& forall|i: int|
        0 <= i < snapshots.len() ==> {
            let s = #[trigger] snapshots[i];
            &&& s.price == levels[i].price
            &&& s.quantity == levels[i].quantity()
            &&& s.order_count == levels[i].orders.len()
        }
}

/// One side of the book: its price levels, best price first.
#[derive(Clone, Debug)]
pub struct Ladder {
    side: Side,
    levels: Vec<PriceLevel>,
}

impl View for Ladder {
    type V = Seq<LevelView>;

    closed spec fn view(&self) -> Seq<LevelView> {
        Seq::new(self.levels@.len(), |i: int| self.levels@[i]@)
    }
}

impl Ladder {
    /// The side of the book this ladder holds.
    pub closed spec fn spec_side(&self) -> Side {
        self.side
    }

    /// The ladder's levels are well formed and sorted for its side.
    pub open spec fn wf(&self) -> bool {
        ladder_wf(self@, self.spec_side())
    }

    /// An empty ladder for one side of the book.
    pub fn new(side: Side) -> (ladder: Ladder)
        ensures
            ladder@ == Seq::<LevelView>::empty(),
            ladder.spec_side() == side,
            ladder.wf(),
    {
        let ladder = Ladder { side, levels: Vec::new() };
        assert(ladder@ =~= Seq::<LevelView>::empty());
        ladder
    }

    /// The side of the book this ladder holds.
    #[verifier::when_used_as_spec(spec_side)]
    pub fn side(&self) -> (side: Side)
        ensures
            side == self.spec_side(),
    {
        self.side
    }

    /// The number of price levels.
    pub fn len(&self) -> (n: usize)
        ensures
            n == self@.len(),
    {
        self.levels.len()
    }

    /// Whether nothing rests on this side.
    pub fn is_empty(&self) -> (b: bool)
        ensures
            b == (self@.len() == 0),
    {
        self.levels.len() == 0
    }

    /// The best price on this side, if any order rests here.
    pub fn best_price(&self) -> (price: Option<Price>)
        ensures
            price == best_price(self@),
    {
        if self.levels.len() > 0 {
            Some(self.levels[0].price())
        } else {
            None
        }
    }

    /// The oldest order at the best price, if any order rests here.
    pub fn front(&self) -> (order: Option<Order>)
        ensures
            order == front_order(self@),
    {
        if self.levels.len() > 0 {
            self.levels[0].front()
        } else {
            None
        }
    }

    /// The order with the given id, if it rests on this side.
    pub fn find(&self, id: OrderId) -> (order: Option<Order>)
        ensures
            order == ladder_find(self@, id),
    {
        let n = self.levels.len();
        let mut li: usize = 0;
        while li < n
            invariant
                li <= n,
                n == self@.len(),
                level_index_of(self@, id, 0) == level_index_of(self@, id, li as int),
            decreases n - li,
        {
            match self.levels[li].position(id) {
                Some(oi) => {
                    proof {
                        lemma_order_index_of(self@[li as int].orders, id, 0);
                    }
                    return Some(self.levels[li].get(oi));
                },
                None => {},
            }
            li += 1;
        }
        None
    }

    /// Adds a live order behind the orders already resting at its price, opening a new
    /// level in sorted position if there is none.
    pub fn insert(&mut self, order: Order)
        requires
            old(self).wf(),
            order.live(),
            order.side == old(self).spec_side(),
            ids_below(old(self)@, order.id.0),
            order.id.0 < u64::MAX,
        ensures
            final(self)@ == ladder_insert(old(self)@, old(self).spec_side(), order),
            final(self).spec_side() == old(self).spec_side(),
            final(self).wf(),
            ids_below(final(self)@, (order.id.0 + 1) as u64),
    {
        let n = self.levels.len();
        let mut i: usize = 0;
        while i < n && is_better(self.side, self.levels[i].price(), order.price)
            invariant
                i <= n,
                n == self@.len(),
                *self == *old(self),
                insert_index(self@, self.side, order.price, 0) == insert_index(
                    self@,
                    self.side,
                    order.price,
                    i as int,
                ),
            decreases n - i,
        {
            i += 1;
        }
        proof {
            lemma_insert(self@, self.side, order);
        }
        if i < n && self.levels[i].price() == order.price {
            self.levels[i].push(order);
        } else {
            self.levels.insert(i, PriceLevel::new(order));
            proof {
                old(self).levels@.insert_ensures(i as int, self.levels@[i as int]);
                old(self)@.insert_ensures(
                    i as int,
                    LevelView { price: order.price, orders: seq![order] },
                );
            }
        }
        assert(self@ =~= ladder_insert(old(self)@, old(self).spec_side(), order));
    }

    /// Takes the order with the given id off this side, if it rests here. The other
    /// orders keep their places; a level left empty disappears.
    pub fn remove(&mut self, id: OrderId) -> (order: Option<Order>)
        ensures
            order == ladder_find(old(self)@, id),
            final(self)@ == ladder_remove(old(self)@, id),
            final(self).spec_side() == old(self).spec_side(),
            old(self).wf() ==> final(self).wf(),
    {
        proof {
            if self.wf() {
                lemma_remove(self@, self.side, id, 0);
            }
        }
        let n = self.levels.len();
        let mut li: usize = 0;
        while li < n
            invariant
                li <= n,
                n == self@.len(),
                *self == *old(self),
                level_index_of(self@, id, 0) == level_index_of(self@, id, li as int),
            decreases n - li,
        {
            match self.levels[li].position(id) {
                Some(oi) => {
                    proof {
                        lemma_order_index_of(self@[li as int].orders, id, 0);
                    }
                    let order = self.levels[li].get(oi);
                    if self.levels[li].len() == 1 {
                        self.levels.remove(li);
                        proof {
                            old(self).levels@.remove_ensures(li as int);
                            old(self)@.remove_ensures(li as int);
                        }
                    } else {
                        self.levels[li].remove_at(oi);
                    }
                    assert(self@ =~= ladder_remove(old(self)@, id));
                    return Some(order);
                },
                None => {},
            }
            li += 1;
        }
        None
    }

    /// Executes `quantity` units of the oldest order at the best price. An order executed
    /// in full leaves the ladder, and its level with it if it was the last one there.
    pub fn fill_front(&mut self, quantity: u64)
        requires
            old(self).wf(),
            old(self)@.len() > 0,
            0 < quantity <= old(self)@[0].orders[0].remaining_quantity,
        ensures
            final(self)@ == fill_front(old(self)@, quantity),
            final(self).spec_side() == old(self).spec_side(),
            final(self).wf(),
    {
        proof {
            lemma_fill_front(self@, self.side, quantity, 0);
        }
        assert(self@[0].wf(self.side));
        assert(self@[0].orders[0].live());
        let front = self.levels[0].get(0);
        if quantity == front.remaining_quantity {
            if self.levels[0].len() == 1 {
                self.levels.remove(0);
                proof {
                    old(self).levels@.remove_ensures(0);
                    old(self)@.remove_ensures(0);
                }
            } else {
                self.levels[0].remove_at(0);
            }
        } else {
            self.levels[0].fill_front(quantity);
        }
        assert(self@ =~= fill_front(old(self)@, quantity));
    }

    /// Whether an incoming order on `taker_side` bounded by `limit` could execute at
    /// least `quantity` units against this side.
    pub fn can_fill(&self, taker_side: Side, limit: Option<Price>, quantity: u64) -> (b: bool)
        requires
            quantity > 0,
        ensures
            b == (available(self@, taker_side, limit, 0) >= quantity),
    {
        let n = self.levels.len();
        let mut i: usize = 0;
        let mut found: u64 = 0;
        while i < n && can_cross(taker_side, limit, self.levels[i].price())
            invariant
                i <= n,
                n == self@.len(),
                found < quantity,
                found + available(self@, taker_side, limit, i as int) == available(
                    self@,
                    taker_side,
                    limit,
                    0,
                ),
            decreases n - i,
        {
            let here: u128 = self.levels[i].total_quantity();
            if here >= (quantity - found) as u128 {
                return true;
            }
            found = found + here as u64;
            i += 1;
        }
        false
    }

    /// The first levels of this side, from the best price outward: all of them, or at
    /// most `depth` if a depth is given.
    pub fn snapshot(&self, depth: Option<usize>) -> (snapshots: Vec<LevelSnapshot>)
        ensures
            is_snapshot(snapshots@, self@, depth),
    {
        let n = match depth {
            Some(d) => if d < self.levels.len() {
                d
            } else {
                self.levels.len()
            },
            None => self.levels.len(),
        };
        let mut snapshots: Vec<LevelSnapshot> = Vec::new();
        let mut i: usize = 0;
        while i < n
            invariant
                i <= n,
                n == snapshot_len(self@.len(), depth),
                n <= self.levels@.len(),
                snapshots@.len() == i,
                forall|k: int|
                    0 <= k < i ==> {
                        let s = #[trigger] snapshots@[k];
                        &&& s.price == self@[k].price
                        &&& s.quantity == self@[k].quantity()
                        &&& s.order_count == self@[k].orders.len()
                    },
            decreases n - i,
        {
            let level = &self.levels[i];
            snapshots.push(
                LevelSnapshot {
                    price: level.price(),
                    quantity: level.total_quantity(),
                    order_count: level.len(),
                },
            );
            i += 1;
        }
        snapshots
    }
}

} // verus!
