use nanobook::book::OrderBook;
use nanobook::ladder::{Ladder, LevelSnapshot};
use nanobook::level::PriceLevel;
use nanobook::order::Order;
use nanobook::types::{
    can_cross, is_better, EngineError, OrderId, OrderStatus, Price, Side, TimeInForce,
};

fn order(id: u64, side: Side, price: i64, quantity: u64) -> Order {
    Order::new(OrderId(id), side, Price(price), quantity, TimeInForce::GTC, id)
}

#[test]
fn new_order_is_resting() {
    let o = order(1, Side::Buy, 100, 10);
    assert_eq!(o.original_quantity, 10);
    assert_eq!(o.remaining_quantity, 10);
    assert_eq!(o.filled_quantity, 0);
    assert_eq!(o.status, OrderStatus::Resting);
    assert!(o.is_active());
}

#[test]
fn fill_moves_quantity_between_counters() {
    let mut o = order(1, Side::Buy, 100, 10);
    o.fill(4);
    assert_eq!((o.filled_quantity, o.remaining_quantity), (4, 6));
    assert_eq!(o.status, OrderStatus::PartiallyFilled);
    assert_eq!(o.filled_quantity + o.remaining_quantity, o.original_quantity);
    o.fill(6);
    assert_eq!((o.filled_quantity, o.remaining_quantity), (10, 0));
    assert_eq!(o.status, OrderStatus::Filled);
    assert!(!o.is_active());
}

#[test]
fn with_remaining_sets_status_from_counters() {
    let id = OrderId(3);
    let tif = TimeInForce::GTC;
    let full = Order::with_remaining(id, Side::Sell, Price(5), 10, 10, tif, 3);
    assert_eq!(full.status, OrderStatus::Resting);
    let part = Order::with_remaining(id, Side::Sell, Price(5), 10, 4, tif, 3);
    assert_eq!(part.status, OrderStatus::PartiallyFilled);
    assert_eq!(part.filled_quantity, 6);
    let none = Order::with_remaining(id, Side::Sell, Price(5), 10, 0, tif, 3);
    assert_eq!(none.status, OrderStatus::Filled);
}

#[test]
fn side_and_price_helpers() {
    assert_eq!(Side::Buy.opposite(), Side::Sell);
    assert_eq!(Side::Sell.opposite(), Side::Buy);
    assert!(is_better(Side::Buy, Price(101), Price(100)));
    assert!(!is_better(Side::Buy, Price(100), Price(100)));
    assert!(is_better(Side::Sell, Price(99), Price(100)));
    assert!(!is_better(Side::Sell, Price(101), Price(100)));
    assert!(can_cross(Side::Buy, Some(Price(100)), Price(100)));
    assert!(!can_cross(Side::Buy, Some(Price(99)), Price(100)));
    assert!(can_cross(Side::Sell, Some(Price(100)), Price(100)));
    assert!(!can_cross(Side::Sell, Some(Price(101)), Price(100)));
    assert!(can_cross(Side::Sell, None, Price(-5)));
}

#[test]
fn level_keeps_arrival_order() {
    let mut level = PriceLevel::new(order(1, Side::Buy, 100, 10));
    level.push(order(2, Side::Buy, 100, 20));
    level.push(order(3, Side::Buy, 100, 30));
    assert_eq!(level.price(), Price(100));
    assert_eq!(level.len(), 3);
    assert!(!level.is_empty());
    assert_eq!(level.total_quantity(), 60);
    assert_eq!(level.front().unwrap().id, OrderId(1));
    assert_eq!(level.position(OrderId(2)), Some(1));
    assert_eq!(level.position(OrderId(9)), None);
    let removed = level.remove_at(1);
    assert_eq!(removed.id, OrderId(2));
    assert_eq!(level.get(0).id, OrderId(1));
    assert_eq!(level.get(1).id, OrderId(3));
    assert_eq!(level.total_quantity(), 40);
    level.fill_front(4);
    assert_eq!(level.front().unwrap().remaining_quantity, 6);
    assert_eq!(level.front().unwrap().status, OrderStatus::PartiallyFilled);
    assert_eq!(level.total_quantity(), 36);
}

#[test]
fn ladder_sorts_bids_descending_and_asks_ascending() {
    let mut bids = Ladder::new(Side::Buy);
    assert!(bids.is_empty());
    assert_eq!(bids.best_price(), None);
    assert_eq!(bids.front(), None);
    bids.insert(order(1, Side::Buy, 100, 1));
    bids.insert(order(2, Side::Buy, 102, 2));
    bids.insert(order(3, Side::Buy, 101, 3));
    bids.insert(order(4, Side::Buy, 102, 4));
    assert_eq!(bids.side(), Side::Buy);
    assert_eq!(bids.len(), 3);
    assert_eq!(bids.best_price(), Some(Price(102)));
    assert_eq!(bids.front().unwrap().id, OrderId(2));
    let prices: Vec<i64> = bids.snapshot(None).iter().map(|l| l.price.0).collect();
    assert_eq!(prices, vec![102, 101, 100]);

    let mut asks = Ladder::new(Side::Sell);
    asks.insert(order(5, Side::Sell, 100, 1));
    asks.insert(order(6, Side::Sell, 102, 2));
    asks.insert(order(7, Side::Sell, 101, 3));
    let prices: Vec<i64> = asks.snapshot(None).iter().map(|l| l.price.0).collect();
    assert_eq!(prices, vec![100, 101, 102]);
    assert_eq!(asks.best_price(), Some(Price(100)));
}

#[test]
fn ladder_remove_drops_empty_level() {
    let mut bids = Ladder::new(Side::Buy);
    bids.insert(order(1, Side::Buy, 100, 1));
    bids.insert(order(2, Side::Buy, 102, 2));
    bids.insert(order(3, Side::Buy, 102, 3));
    assert_eq!(bids.find(OrderId(3)).unwrap().remaining_quantity, 3);
    assert_eq!(bids.find(OrderId(8)), None);
    assert_eq!(bids.remove(OrderId(8)), None);
    assert_eq!(bids.remove(OrderId(2)).unwrap().id, OrderId(2));
    assert_eq!(bids.len(), 2);
    assert_eq!(bids.front().unwrap().id, OrderId(3));
    assert_eq!(bids.remove(OrderId(3)).unwrap().id, OrderId(3));
    assert_eq!(bids.len(), 1);
    assert_eq!(bids.best_price(), Some(Price(100)));
    assert_eq!(bids.remove(OrderId(1)).unwrap().id, OrderId(1));
    assert!(bids.is_empty());
}

#[test]
fn ladder_fill_front_and_can_fill() {
    let mut asks = Ladder::new(Side::Sell);
    asks.insert(order(1, Side::Sell, 100, 10));
    asks.insert(order(2, Side::Sell, 100, 5));
    asks.insert(order(3, Side::Sell, 103, 7));
    assert!(asks.can_fill(Side::Buy, Some(Price(100)), 15));
    assert!(!asks.can_fill(Side::Buy, Some(Price(100)), 16));
    assert!(!asks.can_fill(Side::Buy, Some(Price(99)), 1));
    assert!(asks.can_fill(Side::Buy, Some(Price(103)), 22));
    assert!(!asks.can_fill(Side::Buy, Some(Price(103)), 23));
    assert!(asks.can_fill(Side::Buy, None, 22));
    assert!(!asks.can_fill(Side::Buy, None, 23));
    asks.fill_front(4);
    assert_eq!(asks.front().unwrap().remaining_quantity, 6);
    asks.fill_front(6);
    assert_eq!(asks.front().unwrap().id, OrderId(2));
    asks.fill_front(5);
    assert_eq!(asks.best_price(), Some(Price(103)));
    assert_eq!(asks.len(), 1);
}

#[test]
fn book_insert_remove_and_lookup() {
    let mut book = OrderBook::new();
    assert_eq!(book.best_bid_ask(), (None, None));
    book.insert(order(1, Side::Buy, 100, 10));
    book.insert(order(2, Side::Sell, 105, 20));
    book.insert(order(3, Side::Buy, 101, 30));
    assert_eq!(book.best_bid_ask(), (Some(Price(101)), Some(Price(105))));
    assert_eq!(book.get(OrderId(2)).unwrap().remaining_quantity, 20);
    assert_eq!(book.get(OrderId(4)), Err(EngineError::OrderNotFound));
    assert_eq!(book.remove(OrderId(4)), Err(EngineError::OrderNotFound));
    assert_eq!(book.remove(OrderId(3)).unwrap().id, OrderId(3));
    assert_eq!(book.remove(OrderId(3)), Err(EngineError::OrderNotFound));
    assert_eq!(book.best_bid_ask(), (Some(Price(100)), Some(Price(105))));
}

#[test]
fn book_peek_and_pop_fill() {
    let mut book = OrderBook::new();
    book.insert(order(1, Side::Sell, 105, 20));
    book.insert(order(2, Side::Sell, 105, 5));
    book.insert(order(3, Side::Buy, 100, 9));
    assert_eq!(book.peek_best_opposing(Side::Buy).unwrap().id, OrderId(1));
    assert_eq!(book.peek_best_opposing(Side::Sell).unwrap().id, OrderId(3));
    assert!(book.can_fill(Side::Buy, Some(Price(105)), 25));
    assert!(!book.can_fill(Side::Buy, Some(Price(104)), 1));
    book.pop_fill(Side::Buy, 8);
    let front = book.peek_best_opposing(Side::Buy).unwrap();
    assert_eq!((front.id, front.remaining_quantity, front.filled_quantity), (OrderId(1), 12, 8));
    book.pop_fill(Side::Buy, 12);
    assert_eq!(book.peek_best_opposing(Side::Buy).unwrap().id, OrderId(2));
    book.pop_fill(Side::Sell, 9);
    assert_eq!(book.peek_best_opposing(Side::Sell), None);
    assert_eq!(
        book.snapshot(Side::Sell, None),
        vec![LevelSnapshot { price: Price(105), quantity: 5, order_count: 1 }]
    );
    assert!(book.snapshot(Side::Buy, None).is_empty());
}
