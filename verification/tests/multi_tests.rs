use nanobook::multi::MultiExchange;
use nanobook::symbol::Symbol;
use nanobook::ladder::LevelSnapshot;
use nanobook::types::{
    EngineError, OrderId, OrderStatus, Price, Side, StopStatus, TimeInForce,
};

#[test]
fn new_multi_exchange_knows_no_symbol() {
    let multi = MultiExchange::new();
    assert_eq!(multi.len(), 0);
    assert!(multi.is_empty());
    assert!(multi.symbols().is_empty());
    assert!(multi.best_prices().is_empty());
    assert!(multi.get(&Symbol::new("AAPL")).is_none());
    assert!(multi.has_capacity(&Symbol::new("AAPL")));
}

#[test]
fn get_or_create_makes_one_exchange_per_symbol() {
    let mut multi = MultiExchange::new();
    let aapl = Symbol::new("AAPL");
    let msft = Symbol::new("MSFT");
    multi.get_or_create(&aapl);
    assert_eq!(multi.len(), 1);
    multi.get_or_create(&aapl);
    assert_eq!(multi.len(), 1);
    multi.get_or_create(&msft);
    assert_eq!(multi.len(), 2);
    assert_eq!(multi.symbols(), vec![aapl, msft]);
    assert!(multi.get(&aapl).is_some());
    assert!(multi.get(&Symbol::new("GOOG")).is_none());
}

#[test]
fn get_or_create_hands_out_the_live_exchange() {
    let mut multi = MultiExchange::new();
    let aapl = Symbol::new("AAPL");
    let ex = multi.get_or_create(&aapl);
    ex.submit_limit(Side::Buy, Price(100), 10, TimeInForce::GTC);
    assert_eq!(multi.get(&aapl).unwrap().best_bid_ask(), (Some(Price(100)), None));
    assert_eq!(multi.best_prices(), vec![(aapl, Some(Price(100)), None)]);
}

#[test]
fn symbols_do_not_interact() {
    let mut multi = MultiExchange::new();
    let aapl = Symbol::new("AAPL");
    let msft = Symbol::new("MSFT");
    let a = multi.submit_limit(&aapl, Side::Buy, Price(15000), 100, TimeInForce::GTC);
    let m = multi.submit_limit(&msft, Side::Sell, Price(15000), 100, TimeInForce::GTC);
    assert_eq!(a.order_id, OrderId(1));
    assert_eq!(m.order_id, OrderId(1));
    assert!(a.trades.is_empty());
    assert!(m.trades.is_empty());
    assert_eq!(
        multi.best_prices(),
        vec![(aapl, Some(Price(15000)), None), (msft, None, Some(Price(15000)))]
    );
    let hit = multi.submit_market(&aapl, Side::Sell, 40);
    assert_eq!(hit.order_id, OrderId(2));
    assert_eq!(hit.status, OrderStatus::Filled);
    assert_eq!(hit.trades.len(), 1);
    assert_eq!(hit.trades[0].quantity, 40);
    assert_eq!(multi.get(&msft).unwrap().best_bid_ask(), (None, Some(Price(15000))));
    assert_eq!(multi.get(&aapl).unwrap().get_order(OrderId(1)).unwrap().remaining_quantity, 60);
}

#[test]
fn forwarding_creates_the_exchange() {
    let mut multi = MultiExchange::new();
    let goog = Symbol::new("GOOG");
    let cancelled = multi.cancel(&goog, OrderId(1));
    assert!(!cancelled.success);
    assert_eq!(cancelled.error, Some(EngineError::OrderNotFound));
    assert_eq!(multi.len(), 1);
    assert_eq!(multi.best_prices(), vec![(goog, None, None)]);
    let ibm = Symbol::new("IBM");
    let modified = multi.modify(&ibm, OrderId(1), Price(1), 1);
    assert!(!modified.success);
    assert_eq!(multi.symbols(), vec![goog, ibm]);
}

#[test]
fn cancel_and_modify_reach_the_right_exchange() {
    let mut multi = MultiExchange::new();
    let aapl = Symbol::new("AAPL");
    let msft = Symbol::new("MSFT");
    multi.submit_limit(&aapl, Side::Buy, Price(100), 10, TimeInForce::GTC);
    multi.submit_limit(&msft, Side::Buy, Price(200), 20, TimeInForce::GTC);
    let modified = multi.modify(&msft, OrderId(1), Price(205), 25);
    assert!(modified.success);
    assert_eq!(modified.new_order_id, Some(OrderId(2)));
    assert_eq!(modified.cancelled_quantity, 20);
    let cancelled = multi.cancel(&aapl, OrderId(1));
    assert!(cancelled.success);
    assert_eq!(cancelled.cancelled_quantity, 10);
    assert_eq!(
        multi.best_prices(),
        vec![(aapl, None, None), (msft, Some(Price(205)), None)]
    );
}

#[test]
fn queries_by_symbol() {
    let mut multi = MultiExchange::new();
    let aapl = Symbol::new("AAPL");
    let msft = Symbol::new("MSFT");
    multi.submit_limit(&aapl, Side::Buy, Price(100), 10, TimeInForce::GTC);
    multi.submit_limit(&aapl, Side::Buy, Price(100), 5, TimeInForce::GTC);
    assert_eq!(multi.best_bid_ask(&aapl), (Some(Price(100)), None));
    assert_eq!(multi.best_bid_ask(&msft), (None, None));
    assert_eq!(
        multi.snapshot(&aapl, Side::Buy, None),
        vec![LevelSnapshot { price: Price(100), quantity: 15, order_count: 2 }]
    );
    assert!(multi.snapshot(&aapl, Side::Sell, None).is_empty());
    assert!(multi.snapshot(&msft, Side::Buy, Some(5)).is_empty());
    assert_eq!(multi.len(), 1);
}

#[test]
fn stops_are_kept_per_symbol() {
    let mut multi = MultiExchange::new();
    let aapl = Symbol::new("AAPL");
    let msft = Symbol::new("MSFT");
    multi.submit_limit(&aapl, Side::Sell, Price(100), 5, TimeInForce::GTC);
    multi.submit_market(&aapl, Side::Buy, 1);
    let other = multi.submit_stop(&msft, Side::Buy, Price(90), None, 1, TimeInForce::GTC);
    assert_eq!(other.status, StopStatus::Pending);
    assert_eq!(other.order_id, OrderId(1));
    let here = multi.submit_stop(&aapl, Side::Buy, Price(90), None, 1, TimeInForce::GTC);
    assert_eq!(here.status, StopStatus::Triggered);
    assert_eq!(here.trades.len(), 1);
    assert_eq!(here.trades[0].quantity, 1);
    assert_eq!(multi.get(&msft).unwrap().pending_stops(), 1);
    assert_eq!(multi.get(&aapl).unwrap().pending_stops(), 0);
}
