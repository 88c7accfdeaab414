use lobx_rs::engine::book::{count_resting_orders, Book};
use lobx_rs::engine::types::{DoneReason, Event, Order, OrderRequest, Resting, Side};
use std::time::Instant;

#[test]
fn test_initialise() {
    let book = Book::new();
    assert_eq!(book.bids.len(), 0);
    assert_eq!(book.asks.len(), 0);
    assert_eq!(book.id_index.len(), 0);
}

#[test]
fn test_best_bid() {
    let book = Book::new();
    assert_eq!(book.best_bid(), None);

    let mut book_with_bid = Book::new();
    let req = OrderRequest { side: Side::BUY, price: Some(100), quantity: 10 };
    book_with_bid.submit(&req);
    let best_bid = book_with_bid.best_bid().unwrap().0;
    assert_eq!(best_bid, 100);
}

#[test]
fn test_submit_event() {
    let mut book = Book::new();
    let req = OrderRequest { side: Side::BUY, price: Some(100), quantity: 10 };
    let (order_id, result) = book.submit(&req);
    assert_eq!(order_id, 1);
    assert_eq!(result.events.len(), 1);
}

#[test]
fn test_market_order_fill() {
    let now = Instant::now();
    let ts = now.elapsed().as_secs();
    let mut book = Book::new();
    let req1 = OrderRequest { side: Side::SELL, price: Some(10), quantity: 100 };
    book.submit(&req1);
    let req2 = OrderRequest { side: Side::BUY, price: None, quantity: 10 };
    book.submit(&req2);
    let fake_asks = vec![Resting { id: 1, price: Some(10), remaining: 90, ts, active: true, quantity: 100 }];
    assert_eq!(book.asks, fake_asks);
}

#[test]
fn test_cancel_market_order() {
    let now = Instant::now();
    let ts = now.elapsed().as_secs();
    let mut book = Book::new();
    let req1 = OrderRequest { side: Side::BUY, price: Some(10), quantity: 100 };
    let (order_id, _) = book.submit(&req1);
    let order1 = Order { id: order_id, side: Side::BUY, price: Some(10), quantity: 100 };
    let mut fake_bids = vec![Resting { id: order_id, price: Some(10), remaining: 100, ts, active: true, quantity: 100 }];
    assert_eq!(book.bids, fake_bids);

    book.cancel_limit_order(order1, ts);
    fake_bids.retain(|r| r.id != order1.id);
    assert_eq!(book.bids, fake_bids);
}

#[test]
fn test_limit_order_matching() {
    let now = Instant::now();
    let ts = now.elapsed().as_secs();
    let mut book = Book::new();
    let req1 = OrderRequest { side: Side::SELL, price: Some(10), quantity: 100 };
    let (maker_id, _) = book.submit(&req1);
    let req2 = OrderRequest { side: Side::BUY, price: Some(10), quantity: 10 };
    let (taker_id, result) = book.submit(&req2);
    assert_eq!(result.events.len(), 2);
    assert_eq!(result.events[0], Event::Fill { taker_id, maker_id, price: 10, qty: 10, ts });
    assert_eq!(result.events[1], Event::Done { id: taker_id, reason: DoneReason::Filled, ts });
}

#[test]
fn test_market_order_fill_events() {
    let now = Instant::now();
    let ts = now.elapsed().as_secs();
    let mut book = Book::new();
    let req1 = OrderRequest { side: Side::SELL, price: Some(10), quantity: 100 };
    let (maker_id, _) = book.submit(&req1);
    let req2 = OrderRequest { side: Side::BUY, price: None, quantity: 10 };
    let (taker_id, result) = book.submit(&req2);
    assert_eq!(result.events.len(), 2);
    assert_eq!(result.events[0], Event::Fill { taker_id, maker_id, price: 10, qty: 10, ts });
    assert_eq!(result.events[1], Event::Done { id: taker_id, reason: DoneReason::Filled, ts });
}

#[test]
fn test_market_order_no_liquidity() {
    let mut book = Book::new();
    let req = OrderRequest { side: Side::BUY, price: None, quantity: 10 };
    let (order_id, _) = book.submit(&req);
    assert_eq!(order_id, 1);
}

#[test]
fn test_no_negative_spread_buy_limit_matches_lower_ask() {
    let mut book = Book::new();
    let sell_req = OrderRequest { side: Side::SELL, price: Some(11), quantity: 100 };
    let (sell_id, _) = book.submit(&sell_req);
    assert_eq!(sell_id, 1);

    let buy_req = OrderRequest { side: Side::BUY, price: Some(50), quantity: 50 };
    let (buy_id, result) = book.submit(&buy_req);
    assert_eq!(buy_id, 2);

    assert_eq!(result.events.len(), 2);
    assert!(matches!(result.events[0], Event::Fill { .. }));
    assert!(matches!(result.events[1], Event::Done { .. }));

    if let Some(spread) = book.spread() {
        assert!(spread >= 0, "Spread should not be negative, got: {}", spread);
    }

    let best_ask = book.best_ask();
    assert!(best_ask.is_some());
    if let Some((price, qty)) = best_ask {
        assert_eq!(price, 11);
        assert_eq!(qty, 50);
    }
}

#[test]
fn test_no_negative_spread_sell_limit_matches_higher_bid() {
    let mut book = Book::new();
    let buy_req = OrderRequest { side: Side::BUY, price: Some(50), quantity: 100 };
    let (buy_id, _) = book.submit(&buy_req);
    assert_eq!(buy_id, 1);

    let sell_req = OrderRequest { side: Side::SELL, price: Some(11), quantity: 30 };
    let (sell_id, result) = book.submit(&sell_req);
    assert_eq!(sell_id, 2);

    assert_eq!(result.events.len(), 2);
    assert!(matches!(result.events[0], Event::Fill { .. }));
    assert!(matches!(result.events[1], Event::Done { .. }));

    if let Some(spread) = book.spread() {
        assert!(spread >= 0, "Spread should not be negative, got: {}", spread);
    }

    let best_bid = book.best_bid();
    assert!(best_bid.is_some());
    if let Some((price, qty)) = best_bid {
        assert_eq!(price, 50);
        assert_eq!(qty, 70);
    }
}

#[test]
fn test_walk_the_book_multiple_levels() {
    let mut book = Book::new();
    let sell_req1 = OrderRequest { side: Side::SELL, price: Some(10), quantity: 20 };
    let sell_req2 = OrderRequest { side: Side::SELL, price: Some(12), quantity: 30 };
    let sell_req3 = OrderRequest { side: Side::SELL, price: Some(15), quantity: 25 };
    book.submit(&sell_req1);
    book.submit(&sell_req2);
    book.submit(&sell_req3);

    let buy_req = OrderRequest { side: Side::BUY, price: Some(20), quantity: 50 };
    let (_buy_id, result) = book.submit(&buy_req);

    let fill_events: Vec<&Event> = result.events.iter().filter(|e| matches!(e, Event::Fill { .. })).collect();
    assert_eq!(fill_events.len(), 2);

    if let Some(spread) = book.spread() {
        assert!(spread >= 0, "Spread should not be negative, got: {}", spread);
    }

    let best_ask = book.best_ask();
    assert!(best_ask.is_some());
    if let Some((price, qty)) = best_ask {
        assert_eq!(price, 15);
        assert_eq!(qty, 25);
    }
}

#[test]
fn test_limit_order_no_match_rests_correctly() {
    let mut book = Book::new();
    let sell_req = OrderRequest { side: Side::SELL, price: Some(20), quantity: 100 };
    book.submit(&sell_req);

    let buy_req = OrderRequest { side: Side::BUY, price: Some(10), quantity: 50 };
    let (_buy_id, result) = book.submit(&buy_req);

    assert_eq!(result.events.len(), 1);
    assert!(matches!(result.events[0], Event::Done { .. }));

    if let Some(spread) = book.spread() {
        assert!(spread > 0, "Spread should be positive, got: {}", spread);
        assert_eq!(spread, 10);
    }

    let best_bid = book.best_bid();
    let best_ask = book.best_ask();
    assert!(best_bid.is_some());
    assert!(best_ask.is_some());

    if let Some((bid_price, bid_qty)) = best_bid {
        assert_eq!(bid_price, 10);
        assert_eq!(bid_qty, 50);
    }

    if let Some((ask_price, ask_qty)) = best_ask {
        assert_eq!(ask_price, 20);
        assert_eq!(ask_qty, 100);
    }
}

fn req(side: Side, price: Option<u64>, quantity: u64) -> OrderRequest {
    OrderRequest { side, price, quantity }
}

#[test]
fn scenario_market_buy_partially_takes_best_ask() {
    let mut book = Book::new();
    let (id1, r1) = book.submit_at(&req(Side::SELL, Some(10), 100), 5);
    assert_eq!(id1, 1);
    assert_eq!(r1.events, vec![Event::Done { id: 1, reason: DoneReason::Rested, ts: 5 }]);
    let (id2, r2) = book.submit_at(&req(Side::BUY, None, 10), 6);
    assert_eq!(id2, 2);
    assert_eq!(
        r2.events,
        vec![
            Event::Fill { taker_id: 2, maker_id: 1, price: 10, qty: 10, ts: 6 },
            Event::Done { id: 2, reason: DoneReason::Filled, ts: 6 },
        ]
    );
    assert_eq!(book.best_ask(), Some((10, 90)));
}

#[test]
fn scenario_buy_limit_fills_at_maker_price() {
    let mut book = Book::new();
    book.submit_at(&req(Side::SELL, Some(11), 100), 0);
    let (id2, r2) = book.submit_at(&req(Side::BUY, Some(50), 50), 0);
    assert_eq!(id2, 2);
    assert_eq!(
        r2.events,
        vec![
            Event::Fill { taker_id: 2, maker_id: 1, price: 11, qty: 50, ts: 0 },
            Event::Done { id: 2, reason: DoneReason::Filled, ts: 0 },
        ]
    );
    assert_eq!(book.best_ask(), Some((11, 50)));
    assert_eq!(book.spread(), None);
}

#[test]
fn scenario_buy_limit_walks_two_levels() {
    let mut book = Book::new();
    book.submit_at(&req(Side::SELL, Some(10), 20), 0);
    book.submit_at(&req(Side::SELL, Some(12), 30), 0);
    book.submit_at(&req(Side::SELL, Some(15), 25), 0);
    let (id4, r4) = book.submit_at(&req(Side::BUY, Some(20), 50), 0);
    assert_eq!(
        r4.events,
        vec![
            Event::Fill { taker_id: id4, maker_id: 1, price: 10, qty: 20, ts: 0 },
            Event::Fill { taker_id: id4, maker_id: 2, price: 12, qty: 30, ts: 0 },
            Event::Done { id: id4, reason: DoneReason::Filled, ts: 0 },
        ]
    );
    assert_eq!(book.best_ask(), Some((15, 25)));
    assert_eq!(count_resting_orders(&book), (0, 1, 1));
}

#[test]
fn scenario_non_crossing_limit_rests() {
    let mut book = Book::new();
    book.submit_at(&req(Side::SELL, Some(20), 100), 0);
    let (id2, r2) = book.submit_at(&req(Side::BUY, Some(10), 50), 0);
    assert_eq!(r2.events, vec![Event::Done { id: id2, reason: DoneReason::Rested, ts: 0 }]);
    assert_eq!(book.best_bid(), Some((10, 50)));
    assert_eq!(book.best_ask(), Some((20, 100)));
    assert_eq!(book.spread(), Some(10));
}

#[test]
fn scenario_market_order_on_empty_book_is_rejected() {
    let mut book = Book::new();
    let (id, r) = book.submit_at(&req(Side::BUY, None, 10), 0);
    assert_eq!(id, 1);
    assert_eq!(r.events, vec![Event::Done { id: 1, reason: DoneReason::Rejected, ts: 0 }]);
    assert_eq!(book.next_order_id, 2);
}

#[test]
fn zero_quantity_is_rejected_without_change() {
    let mut book = Book::new();
    book.submit_at(&req(Side::SELL, Some(20), 100), 0);
    let (id, r) = book.submit_at(&req(Side::BUY, Some(25), 0), 3);
    assert_eq!(id, 0);
    assert_eq!(r.events, vec![Event::Done { id: 0, reason: DoneReason::Rejected, ts: 3 }]);
    assert_eq!(book.next_order_id, 2);
    assert_eq!(book.best_ask(), Some((20, 100)));
}

#[test]
fn market_order_partial_fill_ends_rejected() {
    let mut book = Book::new();
    book.submit_at(&req(Side::BUY, Some(30), 5), 0);
    book.submit_at(&req(Side::BUY, Some(29), 50), 0);
    let (id, r) = book.submit_at(&req(Side::SELL, None, 8), 0);
    assert_eq!(
        r.events,
        vec![
            Event::Fill { taker_id: id, maker_id: 1, price: 30, qty: 5, ts: 0 },
            Event::Done { id, reason: DoneReason::Rejected, ts: 0 },
        ]
    );
    assert_eq!(book.best_bid(), Some((29, 50)));
}

#[test]
fn limit_remainder_rests_with_remaining_only() {
    let mut book = Book::new();
    book.submit_at(&req(Side::SELL, Some(10), 30), 0);
    let (id, r) = book.submit_at(&req(Side::BUY, Some(12), 100), 7);
    assert_eq!(
        r.events,
        vec![
            Event::Fill { taker_id: id, maker_id: 1, price: 10, qty: 30, ts: 7 },
            Event::Done { id, reason: DoneReason::Rested, ts: 7 },
        ]
    );
    assert_eq!(book.bids, vec![Resting { id, price: Some(12), quantity: 100, ts: 7, remaining: 70, active: true }]);
    assert_eq!(book.asks.len(), 0);
    assert_eq!(book.best_bid(), Some((12, 70)));
}

#[test]
fn time_priority_within_a_level() {
    let mut book = Book::new();
    book.submit_at(&req(Side::SELL, Some(10), 5), 0);
    book.submit_at(&req(Side::SELL, Some(9), 5), 0);
    book.submit_at(&req(Side::SELL, Some(10), 5), 0);
    assert_eq!(book.best_ask(), Some((9, 5)));
    let (id, r) = book.submit_at(&req(Side::BUY, Some(10), 12), 0);
    assert_eq!(
        r.events,
        vec![
            Event::Fill { taker_id: id, maker_id: 2, price: 9, qty: 5, ts: 0 },
            Event::Fill { taker_id: id, maker_id: 1, price: 10, qty: 5, ts: 0 },
            Event::Fill { taker_id: id, maker_id: 3, price: 10, qty: 2, ts: 0 },
            Event::Done { id, reason: DoneReason::Filled, ts: 0 },
        ]
    );
    assert_eq!(book.best_ask(), Some((10, 3)));
}

#[test]
fn best_level_sums_the_level() {
    let mut book = Book::new();
    book.submit_at(&req(Side::BUY, Some(10), 5), 0);
    book.submit_at(&req(Side::BUY, Some(10), 7), 0);
    book.submit_at(&req(Side::BUY, Some(8), 100), 0);
    assert_eq!(book.best_bid(), Some((10, 12)));
    assert_eq!(count_resting_orders(&book), (2, 0, 3));
    assert_eq!(book.id_index.len(), 3);
}

#[test]
fn best_bid_stays_below_best_ask() {
    let mut book = Book::new();
    book.submit_at(&req(Side::BUY, Some(10), 5), 0);
    book.submit_at(&req(Side::SELL, Some(12), 5), 0);
    book.submit_at(&req(Side::BUY, Some(13), 2), 0);
    let (bid, _) = book.best_bid().unwrap();
    let (ask, _) = book.best_ask().unwrap();
    assert!(bid < ask);
    assert_eq!((bid, ask), (10, 12));
}

#[test]
fn index_tracks_resting_orders() {
    let mut book = Book::new();
    book.submit_at(&req(Side::BUY, Some(10), 5), 0);
    book.submit_at(&req(Side::SELL, Some(12), 5), 0);
    book.submit_at(&req(Side::SELL, Some(12), 5), 0);
    assert_eq!(book.id_index.len(), 3);
    book.submit_at(&req(Side::BUY, Some(12), 7), 0);
    assert_eq!(book.id_index.len(), 2);
    assert_eq!(book.id_index.get(&3), Some(&(Side::SELL, 12)));
    assert_eq!(book.id_index.get(&2), None);
}

#[test]
fn cancel_twice_finds_nothing_the_second_time() {
    let mut book = Book::new();
    let (id, _) = book.submit_at(&req(Side::BUY, Some(10), 5), 0);
    book.submit_at(&req(Side::BUY, Some(9), 5), 0);
    let o = Order { id, price: Some(10), quantity: 5, side: Side::BUY };
    let first = book.cancel_limit_order(o, 4).unwrap();
    assert_eq!(first.events, vec![Event::Done { id, reason: DoneReason::Cancelled, ts: 4 }]);
    let bids_after = book.bids.clone();
    assert!(book.cancel_limit_order(o, 5).is_none());
    assert_eq!(book.bids, bids_after);
    assert_eq!(book.best_bid(), Some((9, 5)));
    let unknown = Order { id: 99, price: None, quantity: 0, side: Side::SELL };
    assert!(book.cancel_limit_order(unknown, 0).is_none());
    assert_eq!(book.id_index.len(), 1);
}

#[test]
fn submit_with_id_keeps_the_given_id() {
    let mut book = Book::new();
    let r = book.submit_with_id(7, &req(Side::SELL, Some(10), 4), 0);
    assert_eq!(r.events, vec![Event::Done { id: 7, reason: DoneReason::Rested, ts: 0 }]);
    assert_eq!(book.next_order_id, 8);
    let (id, _) = book.submit_at(&req(Side::BUY, Some(9), 1), 0);
    assert_eq!(id, 8);
}

#[test]
fn level_size_saturates_at_u64_max() {
    let mut book = Book::new();
    book.submit_at(&req(Side::SELL, Some(7), u64::MAX / 2 + 1), 0);
    book.submit_at(&req(Side::SELL, Some(7), u64::MAX / 2 + 1), 0);
    assert_eq!(book.best_ask(), Some((7, u64::MAX)));
}

#[test]
fn ids_near_the_top_of_u64() {
    let mut book = Book::new();
    book.submit_with_id(u64::MAX - 1, &req(Side::BUY, Some(5), 1), 0);
    assert_eq!(book.next_order_id, u64::MAX);
    assert_eq!(book.best_bid(), Some((5, 1)));
}
