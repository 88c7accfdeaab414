use lobx_rs::engine::book::Book;
use lobx_rs::engine::types::{OrderRequest, Resting, Side};
use lobx_rs::persist::recovery::{apply_op, checkpoint, replay_ops, restore};
use lobx_rs::persist::snapshot::{apply_to_book, from_book};
use lobx_rs::persist::types::{
    PersistanceError, SnapshotData, SnapshotLevel, SnapshotResting, WalOp, SNAPSHOT_SCHEMA_VERSION,
};

fn req(side: Side, price: Option<u64>, quantity: u64) -> OrderRequest {
    OrderRequest { side, price, quantity }
}

fn sample_book() -> Book {
    let mut book = Book::new();
    book.submit_at(&req(Side::BUY, Some(10), 5), 1);
    book.submit_at(&req(Side::BUY, Some(10), 7), 2);
    book.submit_at(&req(Side::BUY, Some(8), 3), 3);
    book.submit_at(&req(Side::SELL, Some(12), 4), 4);
    book.submit_at(&req(Side::SELL, Some(15), 6), 5);
    book.submit_at(&req(Side::BUY, None, 1), 6);
    book
}

fn snap_resting(id: u64, quantity: u64, remaining: u64) -> SnapshotResting {
    SnapshotResting { id, quantity, ts: 0, remaining, active: true }
}

fn level(price: u64, orders: Vec<SnapshotResting>) -> SnapshotLevel {
    SnapshotLevel { price, orders }
}

fn snapshot(bids: Vec<SnapshotLevel>, asks: Vec<SnapshotLevel>, next: u64) -> SnapshotData {
    SnapshotData {
        version: SNAPSHOT_SCHEMA_VERSION,
        bid_side: bids,
        ask_side: asks,
        next_order_id: next,
        wal_high_watermark: 0,
    }
}

#[test]
fn snapshot_groups_levels_in_priority_order() {
    let book = sample_book();
    let s = from_book(&book);
    assert_eq!(s.version, SNAPSHOT_SCHEMA_VERSION);
    assert_eq!(s.next_order_id, 7);
    assert_eq!(s.wal_high_watermark, 0);
    assert_eq!(s.bid_side.len(), 2);
    assert_eq!(s.bid_side[0].price, 10);
    assert_eq!(s.bid_side[0].orders.len(), 2);
    assert_eq!(s.bid_side[0].orders[0].id, 1);
    assert_eq!(s.bid_side[0].orders[1].id, 2);
    assert_eq!(s.bid_side[1].price, 8);
    assert_eq!(s.ask_side.len(), 2);
    assert_eq!(s.ask_side[0].price, 12);
    assert_eq!(s.ask_side[0].orders[0].remaining, 3);
    assert_eq!(s.ask_side[1].price, 15);
}

#[test]
fn snapshot_round_trip_restores_the_book() {
    let book = sample_book();
    let s = from_book(&book);
    let mut rebuilt = Book::new();
    assert!(apply_to_book(&mut rebuilt, &s).is_ok());
    assert_eq!(rebuilt.bids, book.bids);
    assert_eq!(rebuilt.asks, book.asks);
    assert_eq!(rebuilt.next_order_id, book.next_order_id);
    assert_eq!(rebuilt.id_index, book.id_index);
}

#[test]
fn snapshot_of_another_version_is_refused() {
    let mut s = snapshot(vec![level(10, vec![snap_resting(1, 5, 5)])], vec![], 2);
    s.version = SNAPSHOT_SCHEMA_VERSION + 1;
    let mut book = sample_book();
    let before = book.bids.clone();
    assert_eq!(apply_to_book(&mut book, &s), Err(PersistanceError::FormatMismatch));
    assert_eq!(book.bids, before);
}

#[test]
fn inconsistent_snapshots_are_refused() {
    let cases = vec![
        snapshot(vec![level(10, vec![snap_resting(1, 5, 6)])], vec![], 2),
        snapshot(vec![level(10, vec![snap_resting(5, 5, 5)])], vec![], 2),
        snapshot(vec![level(10, vec![snap_resting(1, 5, 5), snap_resting(1, 4, 4)])], vec![], 2),
        snapshot(vec![level(10, vec![snap_resting(1, 5, 5)])], vec![level(12, vec![snap_resting(1, 5, 5)])], 2),
        snapshot(vec![level(12, vec![snap_resting(1, 5, 5)])], vec![level(12, vec![snap_resting(2, 5, 5)])], 3),
        snapshot(vec![level(10, vec![snap_resting(1, 5, 5)])], vec![], 0),
    ];
    for s in cases {
        let mut book = Book::new();
        assert_eq!(apply_to_book(&mut book, &s), Err(PersistanceError::FormatMismatch));
        assert_eq!(book.bids.len(), 0);
    }
}

#[test]
fn levels_in_any_order_are_accepted() {
    let s = snapshot(vec![level(10, vec![snap_resting(1, 5, 5)]), level(20, vec![snap_resting(2, 4, 4)])], vec![], 3);
    let mut book = Book::new();
    assert_eq!(apply_to_book(&mut book, &s), Ok(()));
    assert_eq!(book.best_bid(), Some((20, 4)));
    assert_eq!(book.bids.iter().map(|r| r.id).collect::<Vec<u64>>(), vec![2, 1]);

    let s = snapshot(
        vec![],
        vec![level(15, vec![snap_resting(1, 1, 1)]), level(11, vec![snap_resting(2, 2, 2), snap_resting(3, 3, 3)])],
        4,
    );
    let mut book = Book::new();
    assert_eq!(apply_to_book(&mut book, &s), Ok(()));
    assert_eq!(book.asks.iter().map(|r| r.id).collect::<Vec<u64>>(), vec![2, 3, 1]);
    assert_eq!(book.best_ask(), Some((11, 5)));
}

#[test]
fn levels_at_one_price_are_merged_in_order() {
    let s = snapshot(
        vec![level(10, vec![snap_resting(1, 5, 5)]), level(9, vec![snap_resting(3, 1, 1)]), level(10, vec![snap_resting(2, 4, 4)])],
        vec![],
        4,
    );
    let mut book = Book::new();
    assert_eq!(apply_to_book(&mut book, &s), Ok(()));
    assert_eq!(book.bids.iter().map(|r| r.id).collect::<Vec<u64>>(), vec![1, 2, 3]);
    assert_eq!(book.best_bid(), Some((10, 9)));
}

#[test]
fn inactive_and_empty_entries_are_left_out() {
    let inactive = SnapshotResting { id: 2, quantity: 5, ts: 0, remaining: 5, active: false };
    let s = snapshot(
        vec![level(10, vec![snap_resting(1, 5, 5), inactive, snap_resting(3, 5, 0)]), level(9, vec![])],
        vec![],
        4,
    );
    let mut book = Book::new();
    assert_eq!(apply_to_book(&mut book, &s), Ok(()));
    assert_eq!(book.bids.len(), 1);
    assert_eq!(book.id_index.len(), 1);
    assert_eq!(book.best_bid(), Some((10, 5)));
}

#[test]
fn valid_snapshot_is_applied() {
    let s = snapshot(
        vec![level(10, vec![snap_resting(1, 5, 5), snap_resting(3, 9, 2)]), level(9, vec![snap_resting(2, 4, 4)])],
        vec![level(11, vec![snap_resting(4, 8, 8)])],
        6,
    );
    let mut book = Book::new();
    assert_eq!(apply_to_book(&mut book, &s), Ok(()));
    assert_eq!(book.best_bid(), Some((10, 7)));
    assert_eq!(book.best_ask(), Some((11, 8)));
    assert_eq!(book.next_order_id, 6);
    assert_eq!(book.id_index.len(), 4);
    assert_eq!(book.bids[1], Resting { id: 3, price: Some(10), quantity: 9, ts: 0, remaining: 2, active: true });
}

#[test]
fn replayed_submission_keeps_its_id() {
    let mut book = Book::new();
    let op = WalOp::LimitOrderSubmitted { order_id: 41, side: Side::SELL, price: 20, quantity: 3 };
    assert_eq!(apply_op(&mut book, &op), Ok(()));
    assert_eq!(book.best_ask(), Some((20, 3)));
    assert_eq!(book.next_order_id, 42);
    assert_eq!(book.id_index.get(&41), Some(&(Side::SELL, 20)));
    let (id, _) = book.submit(&req(Side::BUY, Some(1), 1));
    assert_eq!(id, 42);
}

#[test]
fn replayed_market_order_and_cancel() {
    let mut book = Book::new();
    apply_op(&mut book, &WalOp::LimitOrderSubmitted { order_id: 1, side: Side::BUY, price: 10, quantity: 5 }).unwrap();
    apply_op(&mut book, &WalOp::LimitOrderSubmitted { order_id: 2, side: Side::BUY, price: 9, quantity: 5 }).unwrap();
    apply_op(&mut book, &WalOp::MarketOrderSubmitted { order_id: 3, side: Side::SELL, quantity: 2 }).unwrap();
    assert_eq!(book.best_bid(), Some((10, 3)));
    apply_op(&mut book, &WalOp::OrderCancelled { order_id: 1 }).unwrap();
    assert_eq!(book.best_bid(), Some((9, 5)));
    assert_eq!(apply_op(&mut book, &WalOp::OrderCancelled { order_id: 1 }), Ok(()));
    assert_eq!(book.next_order_id, 4);
}

#[test]
fn replaying_a_resting_id_is_corrupt() {
    let mut book = Book::new();
    apply_op(&mut book, &WalOp::LimitOrderSubmitted { order_id: 1, side: Side::BUY, price: 10, quantity: 5 }).unwrap();
    let dup = WalOp::LimitOrderSubmitted { order_id: 1, side: Side::SELL, price: 20, quantity: 5 };
    assert_eq!(apply_op(&mut book, &dup), Err(PersistanceError::CorruptWalRecord));
    assert_eq!(book.asks.len(), 0);
    let max = WalOp::MarketOrderSubmitted { order_id: u64::MAX, side: Side::SELL, quantity: 1 };
    assert_eq!(apply_op(&mut book, &max), Err(PersistanceError::CorruptWalRecord));
    assert_eq!(book.best_bid(), Some((10, 5)));
}

#[test]
fn replay_requires_ascending_ids_after_watermark() {
    let mut book = Book::new();
    let ops = vec![
        (5, WalOp::LimitOrderSubmitted { order_id: 1, side: Side::BUY, price: 10, quantity: 5 }),
        (4, WalOp::LimitOrderSubmitted { order_id: 2, side: Side::BUY, price: 11, quantity: 5 }),
    ];
    assert_eq!(replay_ops(&mut book, 3, &ops), Err(PersistanceError::CorruptWalRecord));
    assert_eq!(book.best_bid(), Some((10, 5)));

    let mut other = Book::new();
    assert_eq!(replay_ops(&mut other, 5, &ops), Err(PersistanceError::CorruptWalRecord));
    assert_eq!(other.bids.len(), 0);
}

#[test]
fn restore_applies_snapshot_then_log() {
    let book = sample_book();
    let s = checkpoint(&book, 17);
    assert_eq!(s.wal_high_watermark, 17);
    let ops = vec![
        (18, WalOp::OrderCancelled { order_id: 1 }),
        (19, WalOp::LimitOrderSubmitted { order_id: 7, side: Side::SELL, price: 11, quantity: 2 }),
    ];
    let mut restored = Book::new();
    assert_eq!(restore(&mut restored, &s, &ops), Ok(()));
    assert_eq!(restored.best_bid(), Some((10, 7)));
    assert_eq!(restored.best_ask(), Some((11, 2)));
    assert_eq!(restored.next_order_id, 8);
}

#[test]
fn replaying_the_log_rebuilds_the_live_book() {
    let mut live = Book::new();
    let mut log: Vec<(i64, WalOp)> = Vec::new();
    let requests = vec![
        req(Side::SELL, Some(12), 5),
        req(Side::SELL, Some(11), 4),
        req(Side::BUY, Some(10), 6),
        req(Side::BUY, Some(11), 2),
        req(Side::SELL, None, 3),
    ];
    for (i, r) in requests.iter().enumerate() {
        let (id, _) = live.submit_at(r, 0);
        let op = match r.price {
            Some(price) => WalOp::LimitOrderSubmitted { order_id: id, side: r.side, price, quantity: r.quantity },
            None => WalOp::MarketOrderSubmitted { order_id: id, side: r.side, quantity: r.quantity },
        };
        log.push((i as i64 + 1, op));
    }
    let o = lobx_rs::engine::types::Order { id: 1, price: None, quantity: 0, side: Side::SELL };
    live.cancel_limit_order(o, 0);
    log.push((6, WalOp::OrderCancelled { order_id: 1 }));

    let mut replayed = Book::new();
    assert_eq!(replay_ops(&mut replayed, 0, &log), Ok(()));
    assert_eq!(replayed.bids, live.bids);
    assert_eq!(replayed.asks, live.asks);
    assert_eq!(replayed.id_index, live.id_index);
    assert_eq!(replayed.next_order_id, live.next_order_id);
}
