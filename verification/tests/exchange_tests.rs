use nanobook::exchange::Exchange;
use nanobook::ladder::LevelSnapshot;
use nanobook::order::Trade;
use nanobook::results::CancelResult;
use nanobook::types::{
    EngineError, OrderId, OrderStatus, Price, Side, StopStatus, TimeInForce, TradeId,
};

fn total(trades: &[Trade]) -> u64 {
    trades.iter().map(|t| t.quantity).sum()
}

#[test]
fn new_exchange_is_empty() {
    let ex = Exchange::new();
    assert!(ex.has_capacity());
    assert_eq!(ex.best_bid_ask(), (None, None));
    assert!(ex.snapshot(Side::Buy, None).is_empty());
    assert!(ex.snapshot(Side::Sell, Some(3)).is_empty());
    assert_eq!(ex.pending_stops(), 0);
    assert_eq!(ex.get_order(OrderId(1)), None);
}

#[test]
fn full_match_empties_the_book() {
    let mut ex = Exchange::new();
    let buy = ex.submit_limit(Side::Buy, Price(15000), 100, TimeInForce::GTC);
    assert_eq!(buy.order_id, OrderId(1));
    assert_eq!(buy.status, OrderStatus::Resting);
    assert_eq!(buy.filled_quantity, 0);
    assert_eq!(buy.resting_quantity, 100);
    assert_eq!(buy.cancelled_quantity, 0);
    assert!(buy.trades.is_empty());

    let sell = ex.submit_limit(Side::Sell, Price(15000), 100, TimeInForce::GTC);
    assert_eq!(sell.order_id, OrderId(2));
    assert_eq!(
        sell.trades,
        vec![Trade {
            id: TradeId(1),
            price: Price(15000),
            quantity: 100,
            aggressor_side: Side::Sell,
            aggressor_order_id: OrderId(2),
            passive_order_id: OrderId(1),
            timestamp: 2,
        }]
    );
    assert_eq!(sell.status, OrderStatus::Filled);
    assert_eq!(sell.filled_quantity, 100);
    assert_eq!(sell.resting_quantity, 0);
    assert_eq!(sell.cancelled_quantity, 0);
    assert_eq!(ex.get_order(buy.order_id), None);
    assert_eq!(ex.get_order(sell.order_id), None);
    assert_eq!(ex.best_bid_ask(), (None, None));
    assert!(ex.snapshot(Side::Buy, None).is_empty());
    assert!(ex.snapshot(Side::Sell, None).is_empty());
}

#[test]
fn ioc_sell_partially_fills_resting_buy() {
    let mut ex = Exchange::new();
    let buy = ex.submit_limit(Side::Buy, Price(15000), 50, TimeInForce::GTC);
    let sell = ex.submit_limit(Side::Sell, Price(15000), 30, TimeInForce::IOC);
    assert_eq!(sell.trades.len(), 1);
    assert_eq!(sell.trades[0].quantity, 30);
    assert_eq!(sell.trades[0].price, Price(15000));
    assert_eq!(sell.status, OrderStatus::Filled);
    assert_eq!(sell.cancelled_quantity, 0);
    assert_eq!(sell.resting_quantity, 0);

    let resting = ex.get_order(buy.order_id).unwrap();
    assert_eq!(resting.status, OrderStatus::PartiallyFilled);
    assert_eq!(resting.remaining_quantity, 20);
    assert_eq!(resting.filled_quantity, 30);
    assert_eq!(resting.original_quantity, 50);
    assert_eq!(
        ex.snapshot(Side::Buy, None),
        vec![LevelSnapshot { price: Price(15000), quantity: 20, order_count: 1 }]
    );
}

#[test]
fn fok_without_enough_liquidity_trades_nothing() {
    let mut ex = Exchange::new();
    ex.submit_limit(Side::Sell, Price(15000), 60, TimeInForce::GTC);
    let asks_before = ex.snapshot(Side::Sell, None);
    let bids_before = ex.snapshot(Side::Buy, None);

    let fok = ex.submit_limit(Side::Buy, Price(15000), 100, TimeInForce::FOK);
    assert!(fok.trades.is_empty());
    assert_eq!(fok.status, OrderStatus::Cancelled);
    assert_eq!(fok.cancelled_quantity, 100);
    assert_eq!(fok.filled_quantity, 0);
    assert_eq!(fok.resting_quantity, 0);
    assert_eq!(ex.snapshot(Side::Sell, None), asks_before);
    assert_eq!(ex.snapshot(Side::Buy, None), bids_before);
    assert_eq!(ex.get_order(fok.order_id), None);
}

#[test]
fn fok_counts_only_levels_within_its_price() {
    let mut ex = Exchange::new();
    ex.submit_limit(Side::Sell, Price(100), 60, TimeInForce::GTC);
    ex.submit_limit(Side::Sell, Price(101), 60, TimeInForce::GTC);
    let killed = ex.submit_limit(Side::Buy, Price(100), 100, TimeInForce::FOK);
    assert_eq!(killed.status, OrderStatus::Cancelled);
    assert!(killed.trades.is_empty());

    let filled = ex.submit_limit(Side::Buy, Price(101), 100, TimeInForce::FOK);
    assert_eq!(filled.status, OrderStatus::Filled);
    assert_eq!(filled.filled_quantity, 100);
    assert_eq!(filled.trades.len(), 2);
    assert_eq!((filled.trades[0].price, filled.trades[0].quantity), (Price(100), 60));
    assert_eq!((filled.trades[1].price, filled.trades[1].quantity), (Price(101), 40));
    assert_eq!(
        ex.snapshot(Side::Sell, None),
        vec![LevelSnapshot { price: Price(101), quantity: 20, order_count: 1 }]
    );
}

#[test]
fn cancel_removes_resting_order() {
    let mut ex = Exchange::new();
    let buy = ex.submit_limit(Side::Buy, Price(100), 10, TimeInForce::GTC);
    assert_eq!(ex.best_bid_ask(), (Some(Price(100)), None));
    let cancelled = ex.cancel(buy.order_id);
    assert_eq!(
        cancelled,
        CancelResult { success: true, cancelled_quantity: 10, error: None }
    );
    assert_eq!(ex.best_bid_ask(), (None, None));
    assert_eq!(ex.get_order(buy.order_id), None);
}

#[test]
fn cancel_unknown_or_terminal_order_fails() {
    let mut ex = Exchange::new();
    let missing = ex.cancel(OrderId(7));
    assert_eq!(
        missing,
        CancelResult {
            success: false,
            cancelled_quantity: 0,
            error: Some(EngineError::OrderNotFound)
        }
    );
    let buy = ex.submit_limit(Side::Buy, Price(100), 10, TimeInForce::GTC);
    ex.submit_market(Side::Sell, 10);
    let filled = ex.cancel(buy.order_id);
    assert!(!filled.success);
    assert_eq!(filled.error, Some(EngineError::OrderNotFound));
    let again = ex.submit_limit(Side::Buy, Price(100), 10, TimeInForce::GTC);
    assert!(ex.cancel(again.order_id).success);
    let twice = ex.cancel(again.order_id);
    assert!(!twice.success);
    assert_eq!(twice.error, Some(EngineError::OrderNotFound));
}

#[test]
fn cancel_reports_what_was_left() {
    let mut ex = Exchange::new();
    let buy = ex.submit_limit(Side::Buy, Price(100), 10, TimeInForce::GTC);
    ex.submit_limit(Side::Sell, Price(100), 4, TimeInForce::GTC);
    let cancelled = ex.cancel(buy.order_id);
    assert!(cancelled.success);
    assert_eq!(cancelled.cancelled_quantity, 6);
}

#[test]
fn modify_replaces_order_with_new_id() {
    let mut ex = Exchange::new();
    let buy = ex.submit_limit(Side::Buy, Price(100), 10, TimeInForce::GTC);
    let modified = ex.modify(buy.order_id, Price(105), 20);
    assert!(modified.success);
    assert_eq!(modified.old_order_id, buy.order_id);
    assert_eq!(modified.new_order_id, Some(OrderId(2)));
    assert_ne!(modified.new_order_id, Some(modified.old_order_id));
    assert_eq!(modified.cancelled_quantity, 10);
    assert!(modified.trades.is_empty());
    assert_eq!(modified.error, None);

    assert_eq!(ex.get_order(buy.order_id), None);
    let replacement = ex.get_order(modified.new_order_id.unwrap()).unwrap();
    assert_eq!(replacement.price, Price(105));
    assert_eq!(replacement.remaining_quantity, 20);
    assert_eq!(replacement.original_quantity, 20);
    assert_eq!(replacement.side, Side::Buy);
    assert_eq!(replacement.time_in_force, TimeInForce::GTC);
    assert_eq!(replacement.status, OrderStatus::Resting);
    assert_eq!(replacement.timestamp, 2);
    assert_eq!(
        ex.snapshot(Side::Buy, None),
        vec![LevelSnapshot { price: Price(105), quantity: 20, order_count: 1 }]
    );
}

#[test]
fn modify_unknown_order_fails_and_changes_nothing() {
    let mut ex = Exchange::new();
    ex.submit_limit(Side::Buy, Price(100), 10, TimeInForce::GTC);
    let before = ex.snapshot(Side::Buy, None);
    let modified = ex.modify(OrderId(9), Price(105), 20);
    assert!(!modified.success);
    assert_eq!(modified.old_order_id, OrderId(9));
    assert_eq!(modified.new_order_id, None);
    assert_eq!(modified.cancelled_quantity, 0);
    assert!(modified.trades.is_empty());
    assert_eq!(modified.error, Some(EngineError::OrderNotFound));
    assert_eq!(ex.snapshot(Side::Buy, None), before);
    let next = ex.submit_limit(Side::Buy, Price(99), 1, TimeInForce::GTC);
    assert_eq!(next.order_id, OrderId(2));
}

#[test]
fn modify_can_trade() {
    let mut ex = Exchange::new();
    ex.submit_limit(Side::Sell, Price(105), 5, TimeInForce::GTC);
    let buy = ex.submit_limit(Side::Buy, Price(100), 10, TimeInForce::GTC);
    let modified = ex.modify(buy.order_id, Price(105), 8);
    assert!(modified.success);
    assert_eq!(modified.trades.len(), 1);
    assert_eq!(modified.trades[0].price, Price(105));
    assert_eq!(modified.trades[0].quantity, 5);
    assert_eq!(modified.trades[0].aggressor_order_id, modified.new_order_id.unwrap());
    let rest = ex.get_order(modified.new_order_id.unwrap()).unwrap();
    assert_eq!(rest.remaining_quantity, 3);
    assert_eq!(rest.status, OrderStatus::PartiallyFilled);
    assert_eq!(ex.best_bid_ask(), (Some(Price(105)), None));
}

#[test]
fn modify_loses_time_priority() {
    let mut ex = Exchange::new();
    let first = ex.submit_limit(Side::Buy, Price(100), 10, TimeInForce::GTC);
    let second = ex.submit_limit(Side::Buy, Price(100), 10, TimeInForce::GTC);
    let modified = ex.modify(first.order_id, Price(100), 5);
    let sell = ex.submit_market(Side::Sell, 12);
    assert_eq!(sell.trades.len(), 2);
    assert_eq!(sell.trades[0].passive_order_id, second.order_id);
    assert_eq!(sell.trades[0].quantity, 10);
    assert_eq!(sell.trades[1].passive_order_id, modified.new_order_id.unwrap());
    assert_eq!(sell.trades[1].quantity, 2);
}

#[test]
fn market_sell_sweeps_two_levels() {
    let mut ex = Exchange::new();
    let high = ex.submit_limit(Side::Buy, Price(100), 50, TimeInForce::GTC);
    let low = ex.submit_limit(Side::Buy, Price(99), 100, TimeInForce::GTC);
    let sell = ex.submit_market(Side::Sell, 150);
    assert_eq!(sell.trades.len(), 2);
    assert_eq!((sell.trades[0].price, sell.trades[0].quantity), (Price(100), 50));
    assert_eq!((sell.trades[1].price, sell.trades[1].quantity), (Price(99), 100));
    assert_eq!(sell.trades[0].passive_order_id, high.order_id);
    assert_eq!(sell.trades[1].passive_order_id, low.order_id);
    assert_eq!(sell.trades[0].id, TradeId(1));
    assert_eq!(sell.trades[1].id, TradeId(2));
    assert_eq!(sell.status, OrderStatus::Filled);
    assert_eq!(sell.filled_quantity, 150);
    assert_eq!(sell.cancelled_quantity, 0);
    assert!(ex.snapshot(Side::Buy, None).is_empty());
    assert_eq!(ex.best_bid_ask(), (None, None));
}

#[test]
fn market_order_on_empty_book_is_cancelled() {
    let mut ex = Exchange::new();
    let buy = ex.submit_market(Side::Buy, 25);
    assert!(buy.trades.is_empty());
    assert_eq!(buy.status, OrderStatus::Cancelled);
    assert_eq!(buy.cancelled_quantity, 25);
    assert_eq!(buy.filled_quantity, 0);
    assert_eq!(buy.resting_quantity, 0);
    assert_eq!(ex.best_bid_ask(), (None, None));
}

#[test]
fn market_order_cancels_what_the_book_cannot_fill() {
    let mut ex = Exchange::new();
    ex.submit_limit(Side::Sell, Price(200), 10, TimeInForce::GTC);
    let buy = ex.submit_market(Side::Buy, 25);
    assert_eq!(buy.filled_quantity, 10);
    assert_eq!(buy.cancelled_quantity, 15);
    assert_eq!(buy.resting_quantity, 0);
    assert_eq!(buy.status, OrderStatus::Cancelled);
    assert_eq!(total(&buy.trades), 10);
    assert_eq!(ex.best_bid_ask(), (None, None));
}

#[test]
fn ioc_remainder_is_discarded() {
    let mut ex = Exchange::new();
    ex.submit_limit(Side::Sell, Price(100), 10, TimeInForce::GTC);
    let buy = ex.submit_limit(Side::Buy, Price(100), 30, TimeInForce::IOC);
    assert_eq!(buy.filled_quantity, 10);
    assert_eq!(buy.cancelled_quantity, 20);
    assert_eq!(buy.resting_quantity, 0);
    assert_eq!(buy.status, OrderStatus::Cancelled);
    assert_eq!(ex.best_bid_ask(), (None, None));
    assert_eq!(ex.get_order(buy.order_id), None);
}

#[test]
fn gtc_remainder_rests_as_partially_filled() {
    let mut ex = Exchange::new();
    ex.submit_limit(Side::Sell, Price(100), 10, TimeInForce::GTC);
    let buy = ex.submit_limit(Side::Buy, Price(101), 30, TimeInForce::GTC);
    assert_eq!(buy.filled_quantity, 10);
    assert_eq!(buy.resting_quantity, 20);
    assert_eq!(buy.cancelled_quantity, 0);
    assert_eq!(buy.status, OrderStatus::PartiallyFilled);
    assert_eq!(buy.trades[0].price, Price(100));
    assert_eq!(ex.best_bid_ask(), (Some(Price(101)), None));
    let resting = ex.get_order(buy.order_id).unwrap();
    assert_eq!(resting.filled_quantity + resting.remaining_quantity, resting.original_quantity);
    assert_eq!(resting.remaining_quantity, 20);
}

#[test]
fn limit_does_not_trade_beyond_its_price() {
    let mut ex = Exchange::new();
    ex.submit_limit(Side::Sell, Price(101), 10, TimeInForce::GTC);
    let buy = ex.submit_limit(Side::Buy, Price(100), 10, TimeInForce::GTC);
    assert!(buy.trades.is_empty());
    assert_eq!(buy.status, OrderStatus::Resting);
    assert_eq!(ex.best_bid_ask(), (Some(Price(100)), Some(Price(101))));
}

#[test]
fn orders_at_one_price_fill_in_arrival_order() {
    let mut ex = Exchange::new();
    let a = ex.submit_limit(Side::Sell, Price(100), 5, TimeInForce::GTC);
    let b = ex.submit_limit(Side::Sell, Price(100), 5, TimeInForce::GTC);
    let c = ex.submit_limit(Side::Sell, Price(100), 5, TimeInForce::GTC);
    let buy = ex.submit_limit(Side::Buy, Price(100), 12, TimeInForce::GTC);
    let passive: Vec<OrderId> = buy.trades.iter().map(|t| t.passive_order_id).collect();
    assert_eq!(passive, vec![a.order_id, b.order_id, c.order_id]);
    let quantities: Vec<u64> = buy.trades.iter().map(|t| t.quantity).collect();
    assert_eq!(quantities, vec![5, 5, 2]);
    assert_eq!(ex.get_order(c.order_id).unwrap().remaining_quantity, 3);
}

#[test]
fn better_price_fills_before_older_order() {
    let mut ex = Exchange::new();
    let old_worse = ex.submit_limit(Side::Sell, Price(101), 5, TimeInForce::GTC);
    let new_better = ex.submit_limit(Side::Sell, Price(100), 5, TimeInForce::GTC);
    let buy = ex.submit_limit(Side::Buy, Price(101), 7, TimeInForce::GTC);
    assert_eq!(buy.trades[0].passive_order_id, new_better.order_id);
    assert_eq!(buy.trades[0].price, Price(100));
    assert_eq!(buy.trades[1].passive_order_id, old_worse.order_id);
    assert_eq!(buy.trades[1].price, Price(101));
    assert_eq!(buy.trades[1].quantity, 2);
}

#[test]
fn book_is_never_crossed() {
    let mut ex = Exchange::new();
    let steps: [(Side, i64, u64); 8] = [
        (Side::Buy, 100, 10),
        (Side::Sell, 105, 10),
        (Side::Buy, 106, 4),
        (Side::Sell, 99, 3),
        (Side::Buy, 103, 7),
        (Side::Sell, 101, 20),
        (Side::Buy, 101, 5),
        (Side::Sell, 90, 50),
    ];
    for (side, price, quantity) in steps {
        ex.submit_limit(side, Price(price), quantity, TimeInForce::GTC);
        if let (Some(bid), Some(ask)) = ex.best_bid_ask() {
            assert!(bid.0 < ask.0);
        }
    }
}

#[test]
fn traded_quantity_is_conserved() {
    let mut ex = Exchange::new();
    ex.submit_limit(Side::Sell, Price(100), 10, TimeInForce::GTC);
    ex.submit_limit(Side::Sell, Price(101), 10, TimeInForce::GTC);
    ex.submit_limit(Side::Sell, Price(102), 10, TimeInForce::GTC);
    let resting_before: u128 = ex.snapshot(Side::Sell, None).iter().map(|l| l.quantity).sum();
    let buy = ex.submit_limit(Side::Buy, Price(101), 17, TimeInForce::GTC);
    let resting_after: u128 = ex.snapshot(Side::Sell, None).iter().map(|l| l.quantity).sum();
    assert_eq!(total(&buy.trades), buy.filled_quantity);
    assert_eq!(buy.filled_quantity, 17);
    assert_eq!(resting_before - resting_after, 17);
    assert_eq!(buy.filled_quantity + buy.resting_quantity + buy.cancelled_quantity, 17);
}

#[test]
fn queries_do_not_change_the_exchange() {
    let mut ex = Exchange::new();
    ex.submit_limit(Side::Buy, Price(100), 10, TimeInForce::GTC);
    ex.submit_limit(Side::Sell, Price(105), 10, TimeInForce::GTC);
    let best = ex.best_bid_ask();
    let bids = ex.snapshot(Side::Buy, None);
    let asks = ex.snapshot(Side::Sell, Some(1));
    assert_eq!(ex.best_bid_ask(), best);
    assert_eq!(ex.snapshot(Side::Buy, None), bids);
    assert_eq!(ex.snapshot(Side::Sell, Some(1)), asks);
    assert_eq!(ex.best_bid_ask(), (Some(Price(100)), Some(Price(105))));
    let next = ex.submit_limit(Side::Buy, Price(99), 1, TimeInForce::GTC);
    assert_eq!(next.order_id, OrderId(3));
}

#[test]
fn snapshot_lists_levels_from_best_outward() {
    let mut ex = Exchange::new();
    ex.submit_limit(Side::Buy, Price(99), 1, TimeInForce::GTC);
    ex.submit_limit(Side::Buy, Price(101), 2, TimeInForce::GTC);
    ex.submit_limit(Side::Buy, Price(100), 3, TimeInForce::GTC);
    ex.submit_limit(Side::Buy, Price(101), 4, TimeInForce::GTC);
    ex.submit_limit(Side::Sell, Price(110), 5, TimeInForce::GTC);
    ex.submit_limit(Side::Sell, Price(108), 6, TimeInForce::GTC);
    assert_eq!(
        ex.snapshot(Side::Buy, None),
        vec![
            LevelSnapshot { price: Price(101), quantity: 6, order_count: 2 },
            LevelSnapshot { price: Price(100), quantity: 3, order_count: 1 },
            LevelSnapshot { price: Price(99), quantity: 1, order_count: 1 },
        ]
    );
    assert_eq!(
        ex.snapshot(Side::Buy, Some(2)),
        vec![
            LevelSnapshot { price: Price(101), quantity: 6, order_count: 2 },
            LevelSnapshot { price: Price(100), quantity: 3, order_count: 1 },
        ]
    );
    assert!(ex.snapshot(Side::Buy, Some(0)).is_empty());
    assert_eq!(ex.snapshot(Side::Buy, Some(10)).len(), 3);
    assert_eq!(
        ex.snapshot(Side::Sell, None),
        vec![
            LevelSnapshot { price: Price(108), quantity: 6, order_count: 1 },
            LevelSnapshot { price: Price(110), quantity: 5, order_count: 1 },
        ]
    );
}

#[test]
fn level_quantity_does_not_overflow() {
    let mut ex = Exchange::new();
    ex.submit_limit(Side::Buy, Price(1), u64::MAX, TimeInForce::GTC);
    ex.submit_limit(Side::Buy, Price(1), u64::MAX, TimeInForce::GTC);
    let levels = ex.snapshot(Side::Buy, None);
    assert_eq!(levels.len(), 1);
    assert_eq!(levels[0].quantity, 2 * (u64::MAX as u128));
    let fok = ex.submit_limit(Side::Sell, Price(1), u64::MAX, TimeInForce::FOK);
    assert_eq!(fok.status, OrderStatus::Filled);
    assert_eq!(fok.filled_quantity, u64::MAX);
}

#[test]
fn ids_and_timestamps_advance_with_each_submission() {
    let mut ex = Exchange::new();
    let a = ex.submit_limit(Side::Buy, Price(100), 1, TimeInForce::GTC);
    let b = ex.submit_market(Side::Buy, 1);
    let c = ex.submit_stop(Side::Buy, Price(200), None, 1, TimeInForce::GTC);
    let d = ex.submit_limit(Side::Buy, Price(100), 1, TimeInForce::FOK);
    let e = ex.submit_limit(Side::Buy, Price(100), 1, TimeInForce::GTC);
    assert_eq!(
        [a.order_id, b.order_id, c.order_id, d.order_id, e.order_id],
        [OrderId(1), OrderId(2), OrderId(3), OrderId(4), OrderId(5)]
    );
    assert_eq!(ex.get_order(a.order_id).unwrap().timestamp, 1);
    assert_eq!(ex.get_order(e.order_id).unwrap().timestamp, 5);
}

#[test]
fn stop_stays_dormant_until_a_trade_reaches_it() {
    let mut ex = Exchange::new();
    ex.submit_limit(Side::Sell, Price(100), 5, TimeInForce::GTC);
    ex.submit_limit(Side::Sell, Price(110), 5, TimeInForce::GTC);
    let stop = ex.submit_stop(Side::Buy, Price(105), None, 3, TimeInForce::GTC);
    assert_eq!(stop.status, StopStatus::Pending);
    assert_eq!(stop.order_id, OrderId(3));
    assert_eq!(ex.pending_stops(), 1);

    let below = ex.submit_market(Side::Buy, 5);
    assert_eq!(below.trades.len(), 1);
    assert_eq!(below.trades[0].price, Price(100));
    assert_eq!(ex.pending_stops(), 1);

    let at = ex.submit_market(Side::Buy, 2);
    assert_eq!(at.order_id, OrderId(5));
    assert_eq!(at.filled_quantity, 2);
    assert_eq!(at.trades.len(), 2);
    assert_eq!(at.trades[0].aggressor_order_id, OrderId(5));
    assert_eq!((at.trades[0].price, at.trades[0].quantity), (Price(110), 2));
    assert_eq!(at.trades[1].aggressor_order_id, OrderId(6));
    assert_eq!(at.trades[1].aggressor_side, Side::Buy);
    assert_eq!((at.trades[1].price, at.trades[1].quantity), (Price(110), 3));
    assert_eq!(at.trades[1].timestamp, 6);
    assert_eq!(ex.pending_stops(), 0);
    assert_eq!(ex.best_bid_ask(), (None, None));
}

#[test]
fn sell_stop_triggers_at_or_below_its_price() {
    let mut ex = Exchange::new();
    ex.submit_limit(Side::Buy, Price(100), 5, TimeInForce::GTC);
    ex.submit_limit(Side::Buy, Price(95), 5, TimeInForce::GTC);
    ex.submit_stop(Side::Sell, Price(99), None, 4, TimeInForce::GTC);
    ex.submit_stop(Side::Sell, Price(100), None, 6, TimeInForce::GTC);
    let sell = ex.submit_market(Side::Sell, 1);
    assert_eq!(sell.order_id, OrderId(5));
    assert_eq!(sell.filled_quantity, 1);
    let seen: Vec<(u64, i64, u64)> =
        sell.trades.iter().map(|t| (t.aggressor_order_id.0, t.price.0, t.quantity)).collect();
    assert_eq!(seen, vec![(5, 100, 1), (6, 100, 4), (6, 95, 2), (7, 95, 3)]);
    let ids: Vec<u64> = sell.trades.iter().map(|t| t.id.0).collect();
    assert_eq!(ids, vec![1, 2, 3, 4]);
    assert_eq!(ex.pending_stops(), 0);
    assert!(ex.snapshot(Side::Buy, None).is_empty());
}

#[test]
fn stop_above_the_traded_price_stays_dormant() {
    let mut ex = Exchange::new();
    ex.submit_limit(Side::Buy, Price(100), 5, TimeInForce::GTC);
    ex.submit_limit(Side::Buy, Price(95), 5, TimeInForce::GTC);
    ex.submit_stop(Side::Sell, Price(99), None, 4, TimeInForce::GTC);
    ex.submit_stop(Side::Sell, Price(100), None, 4, TimeInForce::GTC);
    let sell = ex.submit_market(Side::Sell, 1);
    let seen: Vec<(u64, i64, u64)> =
        sell.trades.iter().map(|t| (t.aggressor_order_id.0, t.price.0, t.quantity)).collect();
    assert_eq!(seen, vec![(5, 100, 1), (6, 100, 4)]);
    assert_eq!(ex.pending_stops(), 1);
    assert_eq!(
        ex.snapshot(Side::Buy, None),
        vec![LevelSnapshot { price: Price(95), quantity: 5, order_count: 1 }]
    );
}

#[test]
fn stop_limit_rests_when_it_cannot_trade() {
    let mut ex = Exchange::new();
    ex.submit_limit(Side::Sell, Price(100), 5, TimeInForce::GTC);
    let stop = ex.submit_stop(Side::Buy, Price(100), Some(Price(98)), 7, TimeInForce::GTC);
    assert_eq!(stop.status, StopStatus::Pending);
    let buy = ex.submit_market(Side::Buy, 5);
    assert_eq!(buy.trades.len(), 1);
    assert_eq!(ex.pending_stops(), 0);
    assert_eq!(ex.best_bid_ask(), (Some(Price(98)), None));
    let rested = ex.get_order(OrderId(4)).unwrap();
    assert_eq!(rested.remaining_quantity, 7);
    assert_eq!(rested.side, Side::Buy);
    assert_eq!(rested.status, OrderStatus::Resting);
    assert_eq!(ex.get_order(stop.order_id), None);
}

#[test]
fn cancel_removes_dormant_stop() {
    let mut ex = Exchange::new();
    let stop = ex.submit_stop(Side::Buy, Price(105), None, 3, TimeInForce::GTC);
    let cancelled = ex.cancel(stop.order_id);
    assert_eq!(
        cancelled,
        CancelResult { success: true, cancelled_quantity: 3, error: None }
    );
    assert_eq!(ex.pending_stops(), 0);
    assert!(!ex.cancel(stop.order_id).success);
    let modified = ex.modify(stop.order_id, Price(1), 1);
    assert!(!modified.success);
}

#[test]
fn result_counts_what_an_activated_stop_took_from_the_remainder() {
    let mut ex = Exchange::new();
    ex.submit_limit(Side::Sell, Price(100), 5, TimeInForce::GTC);
    ex.submit_stop(Side::Sell, Price(100), None, 10, TimeInForce::GTC);
    let buy = ex.submit_limit(Side::Buy, Price(100), 8, TimeInForce::GTC);
    assert_eq!(buy.order_id, OrderId(3));
    let seen: Vec<(u64, u64, u64)> =
        buy.trades.iter().map(|t| (t.aggressor_order_id.0, t.passive_order_id.0, t.quantity)).collect();
    assert_eq!(seen, vec![(3, 1, 5), (4, 3, 3)]);
    assert_eq!(buy.filled_quantity, 8);
    assert_eq!(buy.resting_quantity, 0);
    assert_eq!(buy.cancelled_quantity, 0);
    assert_eq!(buy.status, OrderStatus::Filled);
    assert_eq!(ex.get_order(buy.order_id), None);
    assert_eq!(ex.best_bid_ask(), (None, None));
}

#[test]
fn result_reports_what_is_left_after_an_activated_stop() {
    let mut ex = Exchange::new();
    ex.submit_limit(Side::Sell, Price(100), 5, TimeInForce::GTC);
    ex.submit_stop(Side::Sell, Price(100), None, 2, TimeInForce::GTC);
    let buy = ex.submit_limit(Side::Buy, Price(100), 9, TimeInForce::GTC);
    assert_eq!(buy.trades.len(), 2);
    assert_eq!(buy.filled_quantity, 7);
    assert_eq!(buy.resting_quantity, 2);
    assert_eq!(buy.cancelled_quantity, 0);
    assert_eq!(buy.status, OrderStatus::PartiallyFilled);
    let resting = ex.get_order(buy.order_id).unwrap();
    assert_eq!(resting.remaining_quantity, 2);
    assert_eq!(resting.filled_quantity, 7);
}

#[test]
fn dormant_stop_that_is_not_reached_changes_nothing() {
    let mut ex = Exchange::new();
    ex.submit_limit(Side::Sell, Price(100), 5, TimeInForce::GTC);
    ex.submit_stop(Side::Sell, Price(99), None, 2, TimeInForce::GTC);
    let buy = ex.submit_limit(Side::Buy, Price(100), 9, TimeInForce::GTC);
    assert_eq!(buy.trades.len(), 1);
    assert_eq!(buy.filled_quantity, 5);
    assert_eq!(buy.resting_quantity, 4);
    assert_eq!(buy.status, OrderStatus::PartiallyFilled);
    assert_eq!(ex.pending_stops(), 1);
}

#[test]
fn counters_add_up_for_every_resting_order() {
    let mut ex = Exchange::new();
    let mut ids = Vec::new();
    let steps: [(Side, i64, u64, TimeInForce); 9] = [
        (Side::Buy, 100, 10, TimeInForce::GTC),
        (Side::Buy, 101, 7, TimeInForce::GTC),
        (Side::Sell, 101, 3, TimeInForce::GTC),
        (Side::Sell, 104, 12, TimeInForce::GTC),
        (Side::Buy, 104, 5, TimeInForce::IOC),
        (Side::Sell, 100, 6, TimeInForce::GTC),
        (Side::Buy, 105, 30, TimeInForce::FOK),
        (Side::Buy, 103, 2, TimeInForce::GTC),
        (Side::Sell, 103, 9, TimeInForce::GTC),
    ];
    for (side, price, quantity, tif) in steps {
        let r = ex.submit_limit(side, Price(price), quantity, tif);
        assert_eq!(r.filled_quantity + r.resting_quantity + r.cancelled_quantity, quantity);
        ids.push(r.order_id);
        for id in &ids {
            if let Some(o) = ex.get_order(*id) {
                assert_eq!(o.filled_quantity + o.remaining_quantity, o.original_quantity);
                assert!(o.remaining_quantity > 0);
                assert!(matches!(o.status, OrderStatus::Resting | OrderStatus::PartiallyFilled));
                assert_eq!(o.status == OrderStatus::Resting, o.filled_quantity == 0);
            }
        }
    }
}

#[test]
fn stop_is_triggered_at_once_when_the_last_trade_reached_it() {
    let mut ex = Exchange::new();
    assert_eq!(ex.last_trade_price(), None);
    ex.submit_limit(Side::Sell, Price(110), 5, TimeInForce::GTC);
    ex.submit_limit(Side::Sell, Price(112), 5, TimeInForce::GTC);
    ex.submit_market(Side::Buy, 2);
    assert_eq!(ex.last_trade_price(), Some(Price(110)));

    let dormant = ex.submit_stop(Side::Buy, Price(111), None, 1, TimeInForce::GTC);
    assert_eq!(dormant.order_id, OrderId(4));
    assert_eq!(dormant.status, StopStatus::Pending);
    assert!(dormant.trades.is_empty());
    assert_eq!(ex.pending_stops(), 1);

    let at_once = ex.submit_stop(Side::Buy, Price(110), None, 4, TimeInForce::GTC);
    assert_eq!(at_once.order_id, OrderId(5));
    assert_eq!(at_once.status, StopStatus::Triggered);
    let seen: Vec<(u64, i64, u64)> =
        at_once.trades.iter().map(|t| (t.aggressor_order_id.0, t.price.0, t.quantity)).collect();
    assert_eq!(seen, vec![(6, 110, 3), (6, 112, 1), (7, 112, 1)]);
    assert_eq!(ex.pending_stops(), 0);
    assert_eq!(ex.last_trade_price(), Some(Price(112)));
    assert_eq!(ex.get_order(at_once.order_id), None);
    let next = ex.submit_limit(Side::Buy, Price(1), 1, TimeInForce::GTC);
    assert_eq!(next.order_id, OrderId(8));
}

#[test]
fn sell_stop_is_triggered_at_once_at_or_below_its_price() {
    let mut ex = Exchange::new();
    ex.submit_limit(Side::Buy, Price(100), 5, TimeInForce::GTC);
    ex.submit_market(Side::Sell, 1);
    let above = ex.submit_stop(Side::Sell, Price(99), None, 1, TimeInForce::GTC);
    assert_eq!(above.status, StopStatus::Pending);
    let at = ex.submit_stop(Side::Sell, Price(100), Some(Price(101)), 2, TimeInForce::GTC);
    assert_eq!(at.status, StopStatus::Triggered);
    assert!(at.trades.is_empty());
    assert_eq!(ex.best_bid_ask(), (Some(Price(100)), Some(Price(101))));
    assert_eq!(ex.get_order(OrderId(5)).unwrap().remaining_quantity, 2);
    assert_eq!(ex.pending_stops(), 1);
}

#[test]
fn last_trade_price_follows_the_trades() {
    let mut ex = Exchange::new();
    ex.submit_limit(Side::Buy, Price(100), 5, TimeInForce::GTC);
    ex.submit_limit(Side::Buy, Price(99), 5, TimeInForce::GTC);
    assert_eq!(ex.last_trade_price(), None);
    ex.submit_market(Side::Sell, 7);
    assert_eq!(ex.last_trade_price(), Some(Price(99)));
    ex.submit_limit(Side::Sell, Price(120), 1, TimeInForce::GTC);
    assert_eq!(ex.last_trade_price(), Some(Price(99)));
    ex.cancel(OrderId(2));
    assert_eq!(ex.last_trade_price(), Some(Price(99)));
}
