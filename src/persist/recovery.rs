//! Restoring a book from a snapshot and the write-ahead log, and stamping
//! checkpoints.
use vstd::prelude::*;

use crate::engine::book::Book;
use crate::engine::clock::event_timestamp;
use crate::engine::model::{cancel_view, has_id, order_outcome, BookView};
use crate::engine::types::{Order, OrderRequest, Side};
use crate::persist::snapshot::{encodes, from_book};
use crate::persist::types::{PersistResult, PersistanceError, SnapshotData, WalOp};

verus! {

/// `after` is `b` after the order `req` ran under the given id `id` at time
/// `ts`: a zero quantity changes nothing; otherwise the queues are those the
/// order leaves and the allocator has moved past `id`.
pub open spec fn replayed(b: BookView, id: u64, req: OrderRequest, ts: u64, after: BookView) -> bool {
    &&& after.wf()
    &&& if req.quantity == 0 {
        after == b
    } else {
        let out = order_outcome(
            b,
            Order { id, price: req.price, quantity: req.quantity, side: req.side },
            ts,
        );
        &&& after.bids == out.0
        &&& after.asks == out.1
        &&& after.next_id == if id < b.next_id {
            b.next_id
        } else {
            (id + 1) as u64
        }
    }
}

/// The id a log record is about.
pub open spec fn op_order_id(op: WalOp) -> u64 {
    match op {
        WalOp::LimitOrderSubmitted { order_id, .. } => order_id,
        WalOp::MarketOrderSubmitted { order_id, .. } => order_id,
        WalOp::OrderCancelled { order_id } => order_id,
    }
}

/// The request a submission record stands for.
pub open spec fn op_request(op: WalOp) -> OrderRequest {
    match op {
        WalOp::LimitOrderSubmitted { side, price, quantity, .. } => OrderRequest {
            price: Some(price),
            quantity,
            side,
        },
        WalOp::MarketOrderSubmitted { side, quantity, .. } => OrderRequest {
            price: None,
            quantity,
            side,
        },
        WalOp::OrderCancelled { .. } => OrderRequest { price: None, quantity: 0, side: Side::BUY },
    }
}

/// A submission record that cannot be replayed into `b`: its id is already
/// resting, or is the largest `u64` (the allocator could not move past it).
pub open spec fn op_corrupt(b: BookView, op: WalOp) -> bool {
    !(op is OrderCancelled) && (op_order_id(op) == u64::MAX || b.index.contains_key(
        op_order_id(op),
    ))
}

/// `after` is `b` after replaying `op` at time `ts`.
pub open spec fn op_applied(b: BookView, op: WalOp, ts: u64, after: BookView) -> bool {
    match op {
        WalOp::OrderCancelled { order_id } => after == cancel_view(b, order_id),
        _ => replayed(b, op_order_id(op), op_request(op), ts, after),
    }
}

/// Replays one log record through the book under the id it recorded: a
/// submission runs the same matching as `submit`, a cancellation cancels (a
/// no-op when the id no longer rests). A submission whose id already rests,
/// or is the largest `u64`, fails with `CorruptWalRecord` and changes nothing.
pub fn apply_op(book: &mut Book, op: &WalOp) -> (r: PersistResult<()>)
    requires
        old(book)@.wf(),
    ensures
        final(book)@.wf(),
        op_corrupt(old(book)@, *op) ==> r == Err::<(), PersistanceError>(
            PersistanceError::CorruptWalRecord,
        ) && final(book)@ == old(book)@,
        !op_corrupt(old(book)@, *op) ==> r is Ok && exists|ts: u64|
            op_applied(old(book)@, *op, ts, final(book)@),
{
    let ts = event_timestamp();
    let ghost b = book@;
    match *op {
        WalOp::OrderCancelled { order_id } => {
            let o = Order { id: order_id, price: None, quantity: 0, side: Side::BUY };
            let _ = book.cancel_limit_order(o, ts);
            proof {
                assert(op_applied(b, *op, ts, book@));
            }
            Ok(())
        },
        WalOp::LimitOrderSubmitted { order_id, side, price, quantity } => {
            if order_id == u64::MAX || book.id_index.contains_key(&order_id) {
                return Err(PersistanceError::CorruptWalRecord);
            }
            let req = OrderRequest { price: Some(price), quantity, side };
            let _ = book.submit_with_id(order_id, &req, ts);
            proof {
                assert(op_applied(b, *op, ts, book@));
            }
            Ok(())
        },
        WalOp::MarketOrderSubmitted { order_id, side, quantity } => {
            if order_id == u64::MAX || book.id_index.contains_key(&order_id) {
                return Err(PersistanceError::CorruptWalRecord);
            }
            let req = OrderRequest { price: None, quantity, side };
            let _ = book.submit_with_id(order_id, &req, ts);
            proof {
                assert(op_applied(b, *op, ts, book@));
            }
            Ok(())
        },
    }
}

/// `after` is `b` after replaying the records `ops` in order, each at some
/// time, none of them corrupt where it was replayed.
pub open spec fn replays(b: BookView, ops: Seq<WalOp>, after: BookView) -> bool
    decreases ops.len(),
{
    if ops.len() == 0 {
        after == b
    } else {
        exists|mid: BookView, ts: u64|
            replays(b, ops.drop_last(), mid) && !op_corrupt(mid, ops.last()) && #[trigger] op_applied(
                mid,
                ops.last(),
                ts,
                after,
            )
    }
}

/// The record ids are strictly ascending and all above `watermark`.
pub open spec fn ids_after(watermark: i64, ops: Seq<(i64, WalOp)>) -> bool {
    forall|i: int| 0 <= i < ops.len() ==> (#[trigger] ops[i]).0 > watermark && (i > 0 ==> ops[i - 1].0 < ops[i].0)
}

/// The operations of log records, in order.
pub open spec fn ops_of(ops: Seq<(i64, WalOp)>) -> Seq<WalOp> {
    ops.map_values(|e: (i64, WalOp)| e.1)
}

/// Replays the log records `ops`, which must have strictly ascending ids
/// above `watermark`, through the book in order. On success the book is
/// the one the records lead to. A record out of order, or one that cannot be
/// replayed, fails with `CorruptWalRecord`; the book is then the one the
/// records before it lead to.
pub fn replay_ops(book: &mut Book, watermark: i64, ops: &Vec<(i64, WalOp)>) -> (r: PersistResult<()>)
    requires
        old(book)@.wf(),
    ensures
        final(book)@.wf(),
        r is Ok ==> ids_after(watermark, ops@) && replays(old(book)@, ops_of(ops@), final(book)@),
        r matches Err(e) ==> e == PersistanceError::CorruptWalRecord && exists|k: int|
            0 <= k < ops@.len() && replays(old(book)@, ops_of(ops@.take(k)), final(book)@) && (
            !ids_after(watermark, ops@.take(k + 1)) || op_corrupt(final(book)@, ops@[k].1)),
{
    let ghost b0 = book@;
    let mut i: usize = 0;
    proof {
        assert(ops_of(ops@.take(0)) =~= Seq::<WalOp>::empty());
    }
    while i < ops.len()
        invariant
            i <= ops@.len(),
            b0 == old(book)@,
            book@.wf(),
            ids_after(watermark, ops@.take(i as int)),
            replays(b0, ops_of(ops@.take(i as int)), book@),
        decreases ops@.len() - i,
    {
        let id = ops[i].0;
        if id <= watermark || (i > 0 && ops[i - 1].0 >= id) {
            proof {
                let t = ops@.take(i + 1);
                assert(t[i as int] == ops@[i as int]);
                if i > 0 {
                    assert(t[i - 1] == ops@[i - 1]);
                }
                assert(!ids_after(watermark, t));
            }
            return Err(PersistanceError::CorruptWalRecord);
        }
        let ghost mid = book@;
        let op = ops[i].1;
        match apply_op(book, &op) {
            Ok(()) => {},
            Err(e) => {
                return Err(e);
            },
        }
        proof {
            let t = ops@.take(i + 1);
            assert(ops_of(t).drop_last() =~= ops_of(ops@.take(i as int)));
            assert(ops_of(t).last() == op);
            let ts = choose|ts: u64| op_applied(mid, op, ts, book@);
            assert(op_applied(mid, ops_of(t).last(), ts, book@));
            assert forall|j: int| 0 <= j < t.len() implies (#[trigger] t[j]).0 > watermark && (j > 0 ==> t[j - 1].0 < t[j].0) by {
                assert(t[j] == ops@[j]);
                if j > 0 {
                    assert(t[j - 1] == ops@[j - 1]);
                }
                if j < i {
                    assert(ops@.take(i as int)[j] == ops@[j]);
                    if j > 0 {
                        assert(ops@.take(i as int)[j - 1] == ops@[j - 1]);
                    }
                }
            }
        }
        i = i + 1;
    }
    proof {
        assert(ops@.take(ops@.len() as int) =~= ops@);
    }
    Ok(())
}

/// Restores a book from a snapshot and the log records after its
/// watermark: the snapshot is applied (see `apply_to_book`), then the
/// records are replayed (see `replay_ops`).
pub fn restore(book: &mut Book, snap: &SnapshotData, ops: &Vec<(i64, WalOp)>) -> (r: PersistResult<()>)
    requires
        old(book)@.wf(),
    ensures
        final(book)@.wf(),
        !crate::persist::snapshot::snapshot_valid(*snap) ==> r == Err::<(), PersistanceError>(
            PersistanceError::FormatMismatch,
        ) && final(book)@ == old(book)@,
        crate::persist::snapshot::snapshot_valid(*snap) ==> r is Ok || r == Err::<(), PersistanceError>(
            PersistanceError::CorruptWalRecord,
        ),
        r is Ok ==> ids_after(snap.wal_high_watermark, ops@) && exists|start: BookView|
            crate::persist::snapshot::snapshot_book(*snap, start) && replays(start, ops_of(ops@), final(book)@),
        r == Err::<(), PersistanceError>(PersistanceError::CorruptWalRecord) ==> exists|start: BookView, k: int|
            {
                &&& crate::persist::snapshot::snapshot_book(*snap, start)
                &&& 0 <= k < ops@.len()
                &&& replays(start, ops_of(ops@.take(k)), final(book)@)
                &&& (!ids_after(snap.wal_high_watermark, ops@.take(k + 1)) || op_corrupt(final(book)@, ops@[k].1))
            },
{
    match crate::persist::snapshot::apply_to_book(book, snap) {
        Ok(()) => {},
        Err(e) => {
            return Err(e);
        },
    }
    let ghost start = book@;
    proof {
        assert(crate::persist::snapshot::snapshot_book(*snap, start));
    }
    let r = replay_ops(book, snap.wal_high_watermark, ops);
    proof {
        if r is Ok {
            assert(crate::persist::snapshot::snapshot_book(*snap, start) && replays(start, ops_of(ops@), book@));
        }
    }
    r
}

/// A checkpoint of `book`: its snapshot (see `from_book`) stamped with the
/// highest log record id `wal_high_watermark` that its state reflects.
pub fn checkpoint(book: &Book, wal_high_watermark: i64) -> (s: SnapshotData)
    requires
        book@.wf(),
    ensures
        encodes(book@, SnapshotData { wal_high_watermark: 0, ..s }),
        s.wal_high_watermark == wal_high_watermark,
{
    let mut s = from_book(book);
    s.wal_high_watermark = wal_high_watermark;
    s
}

/// The log record of a submission of `req` that was given the id `id`.
pub open spec fn submission_record(id: u64, req: OrderRequest) -> WalOp {
    match req.price {
        Some(price) => WalOp::LimitOrderSubmitted { order_id: id, side: req.side, price, quantity: req.quantity },
        None => WalOp::MarketOrderSubmitted { order_id: id, side: req.side, quantity: req.quantity },
    }
}

/// Replaying the log record of a submission, into the book it was submitted
/// to and at the same time, is accepted and leaves the book that the
/// submission left: the same queues and the same next id.
pub proof fn lemma_replay_reproduces_submit(b: BookView, req: OrderRequest, ts: u64, after: BookView)
    requires
        b.wf(),
        b.next_id < u64::MAX,
        req.quantity > 0,
        after.wf(),
        ({
            let out = order_outcome(
                b,
                Order { id: b.next_id, price: req.price, quantity: req.quantity, side: req.side },
                ts,
            );
            &&& after.bids == out.0
            &&& after.asks == out.1
            &&& after.next_id == b.next_id + 1
        }),
    ensures
        !op_corrupt(b, submission_record(b.next_id, req)),
        op_applied(b, submission_record(b.next_id, req), ts, after),
{
    assert(!b.index.contains_key(b.next_id)) by {
        if b.index.contains_key(b.next_id) {
            if has_id(b.bids, b.next_id) {
                let i = choose|i: int| 0 <= i < b.bids.len() && (#[trigger] b.bids[i]).id == b.next_id;
                assert(b.bids[i].id < b.next_id);
            } else {
                let i = choose|i: int| 0 <= i < b.asks.len() && (#[trigger] b.asks[i]).id == b.next_id;
                assert(b.asks[i].id < b.next_id);
            }
        }
    }
}

} // verus!
