//! One price level: the orders resting at a single price, oldest first.

use vstd::prelude::*;
use crate::order::Order;
use crate::sums::{lemma_sum_push, lemma_sum_remove, lemma_sum_update, seq_sum};
use crate::types::{OrderId, Price, Side};

verus! {

/// The mathematical content of a price level.
pub struct LevelView {
    pub price: Price,
    /// The resting orders in arrival order.
    pub orders: Seq<Order>,
}

/// The remaining quantity of each order, in the same order.
pub open spec fn remaining_of(orders: Seq<Order>) -> Seq<nat> {
    Seq::new(orders.len(), |i: int| orders[i].remaining_quantity as nat)
}

/// The index of the first order at or after `from` that carries `id`, or the length of
/// the sequence if there is none.
pub open spec fn order_index_of(orders: Seq<Order>, id: OrderId, from: int) -> int
    decreases orders.len() - from,
{
    if 0 <= from < orders.len() && orders[from].id != id {
        order_index_of(orders, id, from + 1)
    } else {
        from
    }
}

impl LevelView {
    /// A level on `side` is never empty; every order in it is live, carries the level's
    /// price and side, and orders appear in strictly increasing order of id.
    pub open spec fn wf(self, side: Side) -> bool {
        &&& self.orders.len() > 0
        &&& forall|i: int|
            0 <= i < self.orders.len() ==> {
                let o = #[trigger] self.orders[i];
                o.live() && o.price == self.price && o.side == side
            }
        &&& forall|i: int, j: int|
            0 <= i < j < self.orders.len() ==> (#[trigger] self.orders[i]).id.0 < (
            #[trigger] self.orders[j]).id.0
    }

    /// Every order at the level has an id below `bound`.
    pub open spec fn ids_below(self, bound: u64) -> bool {
        forall|k: int| 0 <= k < self.orders.len() ==> (#[trigger] self.orders[k]).id.0 < bound
    }

    /// The aggregate quantity still to execute at this level.
    pub open spec fn quantity(self) -> nat {
        seq_sum(remaining_of(self.orders))
    }

    /// Whether an order with this id rests at the level.
    pub open spec fn contains(self, id: OrderId) -> bool {
        order_index_of(self.orders, id, 0) < self.orders.len()
    }
}

/// Where [`order_index_of`] lands: on the first match, having passed only other ids.
pub proof fn lemma_order_index_of(orders: Seq<Order>, id: OrderId, from: int)
    requires
        0 <= from <= orders.len(),
    ensures
        from <= order_index_of(orders, id, from) <= orders.len(),
        order_index_of(orders, id, from) < orders.len() ==> orders[order_index_of(
            orders,
            id,
            from,
        )].id == id,
        forall|k: int| from <= k < order_index_of(orders, id, from) ==> (#[trigger] orders[k]).id != id,
    decreases orders.len() - from,
{
    if from < orders.len() && orders[from].id != id {
        lemma_order_index_of(orders, id, from + 1);
    }
}

/// An order that joins a level adds its remaining quantity to the level's.
pub proof fn lemma_quantity_push(orders: Seq<Order>, order: Order)
    ensures
        seq_sum(remaining_of(orders.push(order))) == seq_sum(remaining_of(orders))
            + order.remaining_quantity,
{
    assert(remaining_of(orders.push(order)) =~= remaining_of(orders).push(
        order.remaining_quantity as nat,
    ));
    lemma_sum_push(remaining_of(orders), order.remaining_quantity as nat);
}

/// A level of one order has that order's remaining quantity.
pub proof fn lemma_quantity_single(orders: Seq<Order>)
    requires
        orders.len() == 1,
    ensures
        seq_sum(remaining_of(orders)) == orders[0].remaining_quantity,
{
    assert(orders =~= Seq::<Order>::empty().push(orders[0]));
    lemma_quantity_push(Seq::<Order>::empty(), orders[0]);
    assert(remaining_of(Seq::<Order>::empty()) =~= Seq::<nat>::empty());
}

/// A live order with the newest id may join the back of a level at its price.
pub proof fn lemma_level_push(level: LevelView, side: Side, order: Order)
    requires
        level.wf(side),
        level.ids_below(order.id.0),
        order.live(),
        order.side == side,
        order.price == level.price,
        order.id.0 < u64::MAX,
    ensures
        (LevelView { price: level.price, orders: level.orders.push(order) }).wf(side),
        (LevelView { price: level.price, orders: level.orders.push(order) }).ids_below(
            (order.id.0 + 1) as u64,
        ),
{
    let grown = level.orders.push(order);
    assert forall|i: int, j: int| 0 <= i < j < grown.len() implies (#[trigger] grown[i]).id.0 < (
    #[trigger] grown[j]).id.0 by {
        if j < level.orders.len() {
            assert(level.orders[i].id.0 < level.orders[j].id.0);
        } else {
            assert(level.orders[i].id.0 < order.id.0);
        }
    }
    assert forall|k: int| 0 <= k < grown.len() implies (#[trigger] grown[k]).id.0 < order.id.0
        + 1 by {
        if k < level.orders.len() {
            assert(level.orders[k].id.0 < order.id.0);
        }
    }
}

/// A level of a single live order is well formed.
pub proof fn lemma_level_single(side: Side, order: Order)
    requires
        order.live(),
        order.side == side,
        order.id.0 < u64::MAX,
    ensures
        (LevelView { price: order.price, orders: seq![order] }).wf(side),
        (LevelView { price: order.price, orders: seq![order] }).ids_below((order.id.0 + 1) as u64),
        (LevelView { price: order.price, orders: seq![order] }).quantity()
            == order.remaining_quantity,
        (LevelView { price: order.price, orders: seq![order] }).contains(order.id),
        order_index_of(seq![order], order.id, 0) == 0,
{
    lemma_quantity_single(seq![order]);
}

/// A level with more than one order stays well formed when one of them leaves.
pub proof fn lemma_level_remove(level: LevelView, side: Side, bound: u64, i: int)
    requires
        level.wf(side),
        level.orders.len() > 1,
        0 <= i < level.orders.len(),
    ensures
        (LevelView { price: level.price, orders: level.orders.remove(i) }).wf(side),
        level.ids_below(bound) ==> (LevelView {
            price: level.price,
            orders: level.orders.remove(i),
        }).ids_below(bound),
{
    let kept = level.orders.remove(i);
    level.orders.remove_ensures(i);
    assert forall|k: int| 0 <= k < kept.len() implies {
        let o = #[trigger] kept[k];
        o.live() && o.price == level.price && o.side == side && (level.ids_below(bound)
            ==> o.id.0 < bound)
    } by {
        let k0 = if k < i { k } else { k + 1 };
        assert(kept[k] == level.orders[k0]);
    }
    assert forall|a: int, b: int| 0 <= a < b < kept.len() implies (#[trigger] kept[a]).id.0 < (
    #[trigger] kept[b]).id.0 by {
        let a0 = if a < i { a } else { a + 1 };
        let b0 = if b < i { b } else { b + 1 };
        assert(kept[a] == level.orders[a0] && kept[b] == level.orders[b0]);
        assert(level.orders[a0].id.0 < level.orders[b0].id.0);
    }
}

/// A level stays well formed when part of its oldest order executes.
pub proof fn lemma_level_fill(level: LevelView, side: Side, bound: u64, quantity: u64)
    requires
        level.wf(side),
        0 < quantity < level.orders[0].remaining_quantity,
    ensures
        (LevelView {
            price: level.price,
            orders: level.orders.update(0, level.orders[0].filled_by(quantity)),
        }).wf(side),
        level.ids_below(bound) ==> (LevelView {
            price: level.price,
            orders: level.orders.update(0, level.orders[0].filled_by(quantity)),
        }).ids_below(bound),
{
    let front = level.orders[0];
    let changed = level.orders.update(0, front.filled_by(quantity));
    assert(front.live());
    assert(front.filled_by(quantity).live());
    assert forall|k: int| 0 <= k < changed.len() implies {
        let o = #[trigger] changed[k];
        o.live() && o.price == level.price && o.side == side && (level.ids_below(bound)
            ==> o.id.0 < bound)
    } by {
        if k != 0 {
            assert(changed[k] == level.orders[k]);
        }
    }
    assert forall|a: int, b: int| 0 <= a < b < changed.len() implies (#[trigger] changed[a]).id.0
        < (#[trigger] changed[b]).id.0 by {
        assert(level.orders[a].id.0 < level.orders[b].id.0);
    }
}

/// An order that leaves a level takes its remaining quantity with it.
pub proof fn lemma_quantity_remove(orders: Seq<Order>, i: int)
    requires
        0 <= i < orders.len(),
    ensures
        seq_sum(remaining_of(orders.remove(i))) + orders[i].remaining_quantity == seq_sum(
            remaining_of(orders),
        ),
{
    orders.remove_ensures(i);
    assert(remaining_of(orders.remove(i)) =~= remaining_of(orders).remove(i));
    lemma_sum_remove(remaining_of(orders), i);
}

/// Replacing an order exchanges its share of the level's quantity.
pub proof fn lemma_quantity_update(orders: Seq<Order>, i: int, order: Order)
    requires
        0 <= i < orders.len(),
    ensures
        seq_sum(remaining_of(orders.update(i, order))) + orders[i].remaining_quantity
            == seq_sum(remaining_of(orders)) + order.remaining_quantity,
{
    assert(remaining_of(orders.update(i, order)) =~= remaining_of(orders).update(
        i,
        order.remaining_quantity as nat,
    ));
    lemma_sum_update(remaining_of(orders), i, order.remaining_quantity as nat);
}

/// A price level: the orders resting at one price, in arrival order.
#[derive(Clone, Debug)]
pub struct PriceLevel {
    price: Price,
    orders: Vec<Order>,
}

impl View for PriceLevel {
    type V = LevelView;

    closed spec fn view(&self) -> LevelView {
        LevelView { price: self.price, orders: self.orders@ }
    }
}

impl PriceLevel {
    /// A level holding a single order, at that order's price.
    pub fn new(order: Order) -> (level: PriceLevel)
        ensures
            level@ == (LevelView { price: order.price, orders: seq![order] }),
    {
        let mut orders: Vec<Order> = Vec::new();
        orders.push(order);
        assert(orders@ =~= seq![order]);
        PriceLevel { price: order.price, orders }
    }

    /// The price shared by every order at this level.
    pub fn price(&self) -> (p: Price)
        ensures
            p == self@.price,
    {
        self.price
    }

    /// The number of orders resting at this level.
    pub fn len(&self) -> (n: usize)
        ensures
            n == self@.orders.len(),
    {
        self.orders.len()
    }

    /// Whether no order rests at this level.
    pub fn is_empty(&self) -> (b: bool)
        ensures
            b == (self@.orders.len() == 0),
    {
        self.orders.len() == 0
    }

    /// The order at position `i` in arrival order.
    pub fn get(&self, i: usize) -> (order: Order)
        requires
            i < self@.orders.len(),
        ensures
            order == self@.orders[i as int],
    {
        self.orders[i]
    }

    /// The oldest order at this level, if any.
    pub fn front(&self) -> (order: Option<Order>)
        ensures
            order == (if self@.orders.len() > 0 {
                Some(self@.orders[0])
            } else {
                None
            }),
    {
        if self.orders.len() > 0 {
            Some(self.orders[0])
        } else {
            None
        }
    }

    /// Appends an order behind all orders already at this level.
    pub fn push(&mut self, order: Order)
        ensures
            final(self)@ == (LevelView {
                price: old(self)@.price,
                orders: old(self)@.orders.push(order),
            }),
    {
        self.orders.push(order);
    }

    /// The position of the order with the given id, if it rests at this level.
    pub fn position(&self, id: OrderId) -> (pos: Option<usize>)
        ensures
            match pos {
                Some(i) => self@.contains(id) && i == order_index_of(self@.orders, id, 0),
                None => !self@.contains(id),
            },
    {
        let n = self.orders.len();
        let mut i: usize = 0;
        while i < n
            invariant
                i <= n,
                n == self.orders@.len(),
                order_index_of(self.orders@, id, 0) == order_index_of(self.orders@, id, i as int),
            decreases n - i,
        {
            if self.orders[i].id.0 == id.0 {
                return Some(i);
            }
            i += 1;
        }
        None
    }

    /// Takes the order at position `i` out of the level, keeping the others in order.
    pub fn remove_at(&mut self, i: usize) -> (order: Order)
        requires
            i < old(self)@.orders.len(),
        ensures
            order == old(self)@.orders[i as int],
            final(self)@ == (LevelView {
                price: old(self)@.price,
                orders: old(self)@.orders.remove(i as int),
            }),
    {
        self.orders.remove(i)
    }

    /// Executes `quantity` units of the oldest order, which stays in place with its
    /// counters updated.
    pub fn fill_front(&mut self, quantity: u64)
        requires
            old(self)@.orders.len() > 0,
            old(self)@.orders[0].wf(),
            0 < quantity <= old(self)@.orders[0].remaining_quantity,
        ensures
            final(self)@ == (LevelView {
                price: old(self)@.price,
                orders: old(self)@.orders.update(0, old(self)@.orders[0].filled_by(quantity)),
            }),
    {
        self.orders[0].fill(quantity);
    }

    /// The aggregate quantity still to execute at this level.
    pub fn total_quantity(&self) -> (total: u128)
        ensures
            total == self@.quantity(),
    {
        let n = self.orders.len();
        let mut total: u128 = 0;
        let mut i: usize = 0;
        let ghost rem = remaining_of(self.orders@);
        while i < n
            invariant
                i <= n,
                n == self.orders@.len(),
                rem == remaining_of(self.orders@),
                total == seq_sum(rem.take(i as int)),
                total <= i * u64::MAX,
            decreases n - i,
        {
            proof {
                assert(rem.take(i as int + 1) =~= rem.take(i as int).push(rem[i as int]));
                lemma_sum_push(rem.take(i as int), rem[i as int]);
                assert((i + 1) * u64::MAX == i * u64::MAX + u64::MAX) by (nonlinear_arith);
                assert(i * u64::MAX + u64::MAX <= u128::MAX) by (nonlinear_arith)
                    requires
                        i < usize::MAX,
                        usize::MAX <= u64::MAX,
                ;
            }
            total = total + self.orders[i].remaining_quantity as u128;
            i += 1;
        }
        assert(rem.take(n as int) =~= rem);
        total
    }
}

} // verus!
