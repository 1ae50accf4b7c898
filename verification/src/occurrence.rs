//! How often an order id occurs on a ladder, and how much quantity rests under it.

use vstd::prelude::*;
use crate::ladder::{
    fill_front, ids_below, insert_index, ladder_find, ladder_insert, ladder_remove, ladder_wf,
    lemma_level_index_of, level_index_of, remove_at,
};
use crate::level::{lemma_order_index_of, order_index_of, LevelView};
use crate::order::Order;
use crate::sums::{
    lemma_sum_at_least, lemma_sum_bound, lemma_sum_insert, lemma_sum_push, lemma_sum_remove,
    lemma_sum_update, lemma_sum_zeros, seq_sum,
};
use crate::types::{OrderId, Side};

verus! {

/// One for an order that carries `id`, nothing for any other.
pub open spec fn hit(order: Order, id: OrderId) -> nat {
    if order.id == id {
        1
    } else {
        0
    }
}

/// For each order in turn, whether it carries `id`.
pub open spec fn order_hits(orders: Seq<Order>, id: OrderId) -> Seq<nat> {
    Seq::new(orders.len(), |k: int| hit(orders[k], id))
}

/// The number of orders in the sequence that carry `id`.
pub open spec fn occurrences_in(orders: Seq<Order>, id: OrderId) -> nat {
    seq_sum(order_hits(orders, id))
}

/// For each level in turn, the number of its orders that carry `id`.
pub open spec fn level_hits(levels: Seq<LevelView>, id: OrderId) -> Seq<nat> {
    Seq::new(levels.len(), |i: int| occurrences_in(levels[i].orders, id))
}

/// The number of orders on the ladder that carry `id`.
pub open spec fn occurrences(levels: Seq<LevelView>, id: OrderId) -> nat {
    seq_sum(level_hits(levels, id))
}

/// Orders whose ids are all below a bound include none with an id at or above it.
pub proof fn lemma_none_at_or_above(levels: Seq<LevelView>, bound: u64, id: OrderId)
    requires
        ids_below(levels, bound),
        id.0 >= bound,
    ensures
        occurrences(levels, id) == 0,
{
    assert forall|i: int| 0 <= i < levels.len() implies (#[trigger] level_hits(levels, id)[i])
        <= 0 by {
        assert(levels[i].ids_below(bound));
        assert forall|k: int| 0 <= k < levels[i].orders.len() implies (#[trigger] order_hits(
            levels[i].orders,
            id,
        )[k]) <= 0 by {
            assert(levels[i].orders[k].id.0 < bound);
        }
        lemma_sum_bound(order_hits(levels[i].orders, id), 0);
    }
    lemma_sum_bound(level_hits(levels, id), 0);
}

/// An order that is found on the ladder occurs on it.
pub proof fn lemma_found_occurs(levels: Seq<LevelView>, id: OrderId)
    requires
        ladder_find(levels, id) is Some,
    ensures
        occurrences(levels, id) >= 1,
{
    lemma_level_index_of(levels, id, 0);
    let li = level_index_of(levels, id, 0);
    lemma_order_index_of(levels[li].orders, id, 0);
    let oi = order_index_of(levels[li].orders, id, 0);
    lemma_sum_remove(order_hits(levels[li].orders, id), oi);
    lemma_sum_remove(level_hits(levels, id), li);
}

/// Replacing a level exchanges its share of the occurrences.
pub proof fn lemma_occurrences_replace(
    levels: Seq<LevelView>,
    i: int,
    level: LevelView,
    id: OrderId,
)
    requires
        0 <= i < levels.len(),
    ensures
        occurrences(levels.update(i, level), id) + occurrences_in(levels[i].orders, id)
            == occurrences(levels, id) + occurrences_in(level.orders, id),
{
    assert(level_hits(levels.update(i, level), id) =~= level_hits(levels, id).update(
        i,
        occurrences_in(level.orders, id),
    ));
    lemma_sum_update(level_hits(levels, id), i, occurrences_in(level.orders, id));
}

/// An order that joins the ladder adds one occurrence of its id and none of any other.
pub proof fn lemma_occurrences_insert(
    levels: Seq<LevelView>,
    side: Side,
    order: Order,
    id: OrderId,
)
    ensures
        occurrences(ladder_insert(levels, side, order), id) == occurrences(levels, id) + hit(
            order,
            id,
        ),
{
    let i = insert_index(levels, side, order.price, 0);
    crate::ladder::lemma_insert_index(levels, side, order.price, 0);
    if i < levels.len() && levels[i].price == order.price {
        let grown = LevelView { price: order.price, orders: levels[i].orders.push(order) };
        assert(order_hits(grown.orders, id) =~= order_hits(levels[i].orders, id).push(
            hit(order, id),
        ));
        lemma_sum_push(order_hits(levels[i].orders, id), hit(order, id));
        lemma_occurrences_replace(levels, i, grown, id);
    } else {
        let fresh = LevelView { price: order.price, orders: seq![order] };
        levels.insert_ensures(i, fresh);
        assert(order_hits(fresh.orders, id) =~= Seq::<nat>::empty().push(hit(order, id)));
        lemma_sum_push(Seq::<nat>::empty(), hit(order, id));
        assert(level_hits(levels.insert(i, fresh), id) =~= level_hits(levels, id).insert(
            i,
            occurrences_in(fresh.orders, id),
        ));
        lemma_sum_insert(level_hits(levels, id), i, occurrences_in(fresh.orders, id));
    }
}

/// An order that leaves the ladder takes one occurrence of its id with it and none of
/// any other.
pub proof fn lemma_occurrences_remove_at(levels: Seq<LevelView>, li: int, oi: int, id: OrderId)
    requires
        0 <= li < levels.len(),
        0 <= oi < levels[li].orders.len(),
    ensures
        occurrences(remove_at(levels, li, oi), id) + hit(levels[li].orders[oi], id)
            == occurrences(levels, id),
{
    let orders = levels[li].orders;
    orders.remove_ensures(oi);
    assert(order_hits(orders.remove(oi), id) =~= order_hits(orders, id).remove(oi));
    lemma_sum_remove(order_hits(orders, id), oi);
    if orders.len() == 1 {
        levels.remove_ensures(li);
        assert(level_hits(levels.remove(li), id) =~= level_hits(levels, id).remove(li));
        lemma_sum_remove(level_hits(levels, id), li);
        assert(order_hits(orders.remove(oi), id) =~= Seq::<nat>::empty());
    } else {
        lemma_occurrences_replace(
            levels,
            li,
            LevelView { price: levels[li].price, orders: orders.remove(oi) },
            id,
        );
    }
}

/// Removing by id takes off one occurrence of that id, if there is one, and none of any
/// other id.
pub proof fn lemma_occurrences_remove(levels: Seq<LevelView>, removed: OrderId, id: OrderId)
    ensures
        occurrences(ladder_remove(levels, removed), id) + (if ladder_find(levels, removed)
            is Some && removed == id {
            1nat
        } else {
            0nat
        }) == occurrences(levels, id),
{
    lemma_level_index_of(levels, removed, 0);
    let li = level_index_of(levels, removed, 0);
    if li < levels.len() {
        lemma_order_index_of(levels[li].orders, removed, 0);
        lemma_occurrences_remove_at(
            levels,
            li,
            order_index_of(levels[li].orders, removed, 0),
            id,
        );
    }
}

/// An execution at the best price takes one occurrence of the resting order's id off
/// the ladder if it fills the order, and changes no occurrence otherwise.
pub proof fn lemma_occurrences_fill_front(levels: Seq<LevelView>, quantity: u64, id: OrderId)
    requires
        levels.len() > 0,
        levels[0].orders.len() > 0,
    ensures
        occurrences(fill_front(levels, quantity), id) <= occurrences(levels, id),
{
    let front = levels[0].orders[0];
    if quantity == front.remaining_quantity {
        lemma_occurrences_remove_at(levels, 0, 0, id);
    } else {
        let changed = LevelView {
            price: levels[0].price,
            orders: levels[0].orders.update(0, front.filled_by(quantity)),
        };
        assert(order_hits(changed.orders, id) =~= order_hits(levels[0].orders, id));
        lemma_occurrences_replace(levels, 0, changed, id);
    }
}

/// The remaining quantity of an order that carries `id`, nothing for any other.
pub open spec fn holding(order: Order, id: OrderId) -> nat {
    if order.id == id {
        order.remaining_quantity as nat
    } else {
        0
    }
}

/// For each order in turn, what it holds under `id`.
pub open spec fn order_holdings(orders: Seq<Order>, id: OrderId) -> Seq<nat> {
    Seq::new(orders.len(), |k: int| holding(orders[k], id))
}

/// The quantity that the orders in the sequence hold under `id`.
pub open spec fn held_in(orders: Seq<Order>, id: OrderId) -> nat {
    seq_sum(order_holdings(orders, id))
}

/// For each level in turn, the quantity that it holds under `id`.
pub open spec fn level_holdings(levels: Seq<LevelView>, id: OrderId) -> Seq<nat> {
    Seq::new(levels.len(), |i: int| held_in(levels[i].orders, id))
}

/// The quantity that rests on the ladder under `id`.
pub open spec fn held(levels: Seq<LevelView>, id: OrderId) -> nat {
    seq_sum(level_holdings(levels, id))
}

/// Orders none of which carries the id hold nothing under it.
pub proof fn lemma_absent_holds_nothing(levels: Seq<LevelView>, id: OrderId)
    requires
        occurrences(levels, id) == 0,
    ensures
        held(levels, id) == 0,
{
    assert forall|i: int| 0 <= i < levels.len() implies (#[trigger] level_holdings(
        levels,
        id,
    )[i]) == 0 by {
        lemma_sum_at_least(level_hits(levels, id), i);
        assert forall|k: int| 0 <= k < levels[i].orders.len() implies (#[trigger] order_holdings(
            levels[i].orders,
            id,
        )[k]) == 0 by {
            lemma_sum_at_least(order_hits(levels[i].orders, id), k);
        }
        lemma_sum_zeros(order_holdings(levels[i].orders, id));
    }
    lemma_sum_zeros(level_holdings(levels, id));
}

/// On a well-formed ladder that holds an id once, what rests under the id is the
/// remaining quantity of the order that is found under it.
pub proof fn lemma_found_holds(levels: Seq<LevelView>, side: Side, id: OrderId)
    requires
        ladder_wf(levels, side),
        ladder_find(levels, id) is Some,
        occurrences(levels, id) <= 1,
    ensures
        held(levels, id) == ladder_find(levels, id).unwrap().remaining_quantity,
{
    lemma_level_index_of(levels, id, 0);
    let li = level_index_of(levels, id, 0);
    let orders = levels[li].orders;
    lemma_order_index_of(orders, id, 0);
    let oi = order_index_of(orders, id, 0);
    assert(levels[li].wf(side));
    // Within the level only the order found carries the id.
    let inner = order_holdings(orders, id);
    lemma_sum_remove(inner, oi);
    inner.remove_ensures(oi);
    assert forall|k: int| 0 <= k < inner.remove(oi).len() implies (#[trigger] inner.remove(
        oi,
    )[k]) == 0 by {
        let k0 = if k < oi { k } else { k + 1 };
        if k0 < oi {
            assert(orders[k0].id.0 < orders[oi].id.0);
        } else {
            assert(orders[oi].id.0 < orders[k0].id.0);
        }
    }
    lemma_sum_zeros(inner.remove(oi));
    // No other level carries the id at all.
    let hits = level_hits(levels, id);
    lemma_sum_remove(hits, li);
    lemma_sum_at_least(order_hits(orders, id), oi);
    let outer = level_holdings(levels, id);
    lemma_sum_remove(outer, li);
    outer.remove_ensures(li);
    hits.remove_ensures(li);
    assert forall|i: int| 0 <= i < outer.remove(li).len() implies (#[trigger] outer.remove(
        li,
    )[i]) == 0 by {
        let i0 = if i < li { i } else { i + 1 };
        lemma_sum_at_least(hits.remove(li), i);
        assert(hits[i0] == 0);
        assert forall|k: int| 0 <= k < levels[i0].orders.len() implies (
        #[trigger] order_holdings(levels[i0].orders, id)[k]) == 0 by {
            lemma_sum_at_least(order_hits(levels[i0].orders, id), k);
        }
        lemma_sum_zeros(order_holdings(levels[i0].orders, id));
    }
    lemma_sum_zeros(outer.remove(li));
}

/// Replacing a level exchanges its share of what rests under an id.
pub proof fn lemma_held_replace(levels: Seq<LevelView>, i: int, level: LevelView, id: OrderId)
    requires
        0 <= i < levels.len(),
    ensures
        held(levels.update(i, level), id) + held_in(levels[i].orders, id) == held(levels, id)
            + held_in(level.orders, id),
{
    assert(level_holdings(levels.update(i, level), id) =~= level_holdings(levels, id).update(
        i,
        held_in(level.orders, id),
    ));
    lemma_sum_update(level_holdings(levels, id), i, held_in(level.orders, id));
}

/// An order that joins the ladder adds its remaining quantity to what rests under its
/// id and nothing to what rests under any other.
pub proof fn lemma_held_insert(levels: Seq<LevelView>, side: Side, order: Order, id: OrderId)
    ensures
        held(ladder_insert(levels, side, order), id) == held(levels, id) + holding(order, id),
{
    let i = insert_index(levels, side, order.price, 0);
    crate::ladder::lemma_insert_index(levels, side, order.price, 0);
    if i < levels.len() && levels[i].price == order.price {
        let grown = LevelView { price: order.price, orders: levels[i].orders.push(order) };
        assert(order_holdings(grown.orders, id) =~= order_holdings(levels[i].orders, id).push(
            holding(order, id),
        ));
        lemma_sum_push(order_holdings(levels[i].orders, id), holding(order, id));
        lemma_held_replace(levels, i, grown, id);
    } else {
        let fresh = LevelView { price: order.price, orders: seq![order] };
        levels.insert_ensures(i, fresh);
        assert(order_holdings(fresh.orders, id) =~= Seq::<nat>::empty().push(holding(order, id)));
        lemma_sum_push(Seq::<nat>::empty(), holding(order, id));
        assert(level_holdings(levels.insert(i, fresh), id) =~= level_holdings(levels, id).insert(
            i,
            held_in(fresh.orders, id),
        ));
        lemma_sum_insert(level_holdings(levels, id), i, held_in(fresh.orders, id));
    }
}

/// An order that leaves the ladder takes its remaining quantity out of what rests under
/// its id and nothing out of what rests under any other.
pub proof fn lemma_held_remove_at(levels: Seq<LevelView>, li: int, oi: int, id: OrderId)
    requires
        0 <= li < levels.len(),
        0 <= oi < levels[li].orders.len(),
    ensures
        held(remove_at(levels, li, oi), id) + holding(levels[li].orders[oi], id) == held(
            levels,
            id,
        ),
{
    let orders = levels[li].orders;
    orders.remove_ensures(oi);
    assert(order_holdings(orders.remove(oi), id) =~= order_holdings(orders, id).remove(oi));
    lemma_sum_remove(order_holdings(orders, id), oi);
    if orders.len() == 1 {
        levels.remove_ensures(li);
        assert(level_holdings(levels.remove(li), id) =~= level_holdings(levels, id).remove(li));
        lemma_sum_remove(level_holdings(levels, id), li);
        assert(order_holdings(orders.remove(oi), id) =~= Seq::<nat>::empty());
    } else {
        lemma_held_replace(
            levels,
            li,
            LevelView { price: levels[li].price, orders: orders.remove(oi) },
            id,
        );
    }
}

/// Removing by id never adds to what rests under any id.
pub proof fn lemma_held_remove(levels: Seq<LevelView>, removed: OrderId, id: OrderId)
    ensures
        held(ladder_remove(levels, removed), id) <= held(levels, id),
{
    lemma_level_index_of(levels, removed, 0);
    let li = level_index_of(levels, removed, 0);
    if li < levels.len() {
        lemma_order_index_of(levels[li].orders, removed, 0);
        lemma_held_remove_at(levels, li, order_index_of(levels[li].orders, removed, 0), id);
    }
}

/// An execution at the best price takes the executed quantity out of what rests under
/// the resting order's id and changes nothing under any other id.
pub proof fn lemma_held_fill_front(levels: Seq<LevelView>, quantity: u64, id: OrderId)
    requires
        levels.len() > 0,
        levels[0].orders.len() > 0,
        quantity <= levels[0].orders[0].remaining_quantity,
    ensures
        held(fill_front(levels, quantity), id) + (if levels[0].orders[0].id == id {
            quantity as nat
        } else {
            0
        }) == held(levels, id),
{
    let front = levels[0].orders[0];
    if quantity == front.remaining_quantity {
        lemma_held_remove_at(levels, 0, 0, id);
    } else {
        let changed = LevelView {
            price: levels[0].price,
            orders: levels[0].orders.update(0, front.filled_by(quantity)),
        };
        assert(order_holdings(changed.orders, id) =~= order_holdings(levels[0].orders, id).update(
            0,
            holding(front.filled_by(quantity), id),
        ));
        lemma_sum_update(
            order_holdings(levels[0].orders, id),
            0,
            holding(front.filled_by(quantity), id),
        );
        lemma_held_replace(levels, 0, changed, id);
    }
}

} // verus!
