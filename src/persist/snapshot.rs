//! Pure conversions between a `Book` and its persisted snapshot.
use std::collections::HashMap;
use vstd::prelude::*;

use crate::engine::book::{price_exec, rest_in, Book};
use crate::engine::model::{
    better, disjoint_ids, entries_ok, entry_ok, has_id, indexed, lemma_rest_pos, lemma_rest_queue_wf,
    not_crossed, price_of, queue_wf, rest_pos, sorted, unique_ids, BookView,
};
use crate::engine::types::{Resting, Side};
use crate::persist::types::{
    PersistResult, PersistanceError, SnapshotData, SnapshotLevel, SnapshotResting,
    SNAPSHOT_SCHEMA_VERSION,
};

verus! {

broadcast use vstd::std_specs::hash::group_hash_axioms;

/// The resting entry a persisted order stands for at level price `p`.
pub open spec fn to_resting(s: SnapshotResting, p: u64) -> Resting {
    Resting {
        id: s.id,
        price: Some(p),
        quantity: s.quantity,
        ts: s.ts,
        remaining: s.remaining,
        active: s.active,
    }
}

/// The resting entries of one persisted level, in its order.
pub open spec fn level_entries(l: SnapshotLevel) -> Seq<Resting> {
    l.orders@.map_values(|s: SnapshotResting| to_resting(s, l.price))
}

/// The queue that persisted levels stand for: their entries, level after level.
pub open spec fn flatten(ls: Seq<SnapshotLevel>) -> Seq<Resting>
    decreases ls.len(),
{
    if ls.len() == 0 {
        Seq::empty()
    } else {
        flatten(ls.drop_last()) + level_entries(ls.last())
    }
}

/// The persisted levels of `side` are non-empty, and each level's price is
/// strictly better than the next one's (so no price occurs twice).
pub open spec fn levels_ok(side: Side, ls: Seq<SnapshotLevel>) -> bool {
    &&& forall|i: int| 0 <= i < ls.len() ==> (#[trigger] ls[i]).orders@.len() > 0
    &&& forall|i: int| 0 <= i < ls.len() - 1 ==> better(side, (#[trigger] ls[i]).price, ls[i + 1].price)
}

/// `levels` is the persisted form of the queue `q` of `side`.
pub open spec fn encodes_queue(side: Side, q: Seq<Resting>, levels: Seq<SnapshotLevel>) -> bool {
    levels_ok(side, levels) && flatten(levels) == q
}

/// `s` is the snapshot of the book `b`: both sides level by level, the id
/// allocator, the current layout version, and no watermark yet (0).
pub open spec fn encodes(b: BookView, s: SnapshotData) -> bool {
    &&& s.version == SNAPSHOT_SCHEMA_VERSION
    &&& encodes_queue(Side::BUY, b.bids, s.bid_side@)
    &&& encodes_queue(Side::SELL, b.asks, s.ask_side@)
    &&& s.next_order_id == b.next_id
    &&& s.wal_high_watermark == 0
}

/// A persisted order that is resting liquidity: active, with something
/// remaining. Other orders stand for nothing in the book.
pub open spec fn kept(s: SnapshotResting) -> bool {
    s.active && s.remaining > 0
}

/// The resting entries that the kept orders of `orders`, at price `p`,
/// stand for, in their order.
pub open spec fn kept_entries(orders: Seq<SnapshotResting>, p: u64) -> Seq<Resting>
    decreases orders.len(),
{
    if orders.len() == 0 {
        Seq::empty()
    } else {
        let e = kept_entries(orders.drop_last(), p);
        if kept(orders.last()) {
            e.push(to_resting(orders.last(), p))
        } else {
            e
        }
    }
}

/// The kept entries of all levels, level after level, each level's in its
/// order.
pub open spec fn all_kept(ls: Seq<SnapshotLevel>) -> Seq<Resting>
    decreases ls.len(),
{
    if ls.len() == 0 {
        Seq::empty()
    } else {
        all_kept(ls.drop_last()) + kept_entries(ls.last().orders@, ls.last().price)
    }
}

/// The queue of `side` that resting the entries `e` one after another
/// builds: each joins behind every entry at least as good as its price.
pub open spec fn rest_all(side: Side, e: Seq<Resting>) -> Seq<Resting>
    decreases e.len(),
{
    if e.len() == 0 {
        Seq::empty()
    } else {
        let q = rest_all(side, e.drop_last());
        q.insert(rest_pos(side, q, price_of(e.last())), e.last())
    }
}

/// The queue of `side` that persisted levels stand for, whatever order the
/// levels come in: their kept orders rested level after level, so that
/// levels end up in priority order, each keeping its own order, and levels
/// at one price are merged in the order they come.
pub open spec fn side_queue(side: Side, ls: Seq<SnapshotLevel>) -> Seq<Resting> {
    rest_all(side, all_kept(ls))
}

/// A snapshot that stands for a well-formed book: the current layout
/// version, an id allocator of at least 1, kept orders with
/// `remaining <= quantity` and ids below the allocator, no id twice across
/// both sides, and rebuilt queues that are not crossed.
pub open spec fn snapshot_valid(s: SnapshotData) -> bool {
    let bids = all_kept(s.bid_side@);
    let asks = all_kept(s.ask_side@);
    &&& s.version == SNAPSHOT_SCHEMA_VERSION
    &&& s.next_order_id >= 1
    &&& entries_ok(bids, s.next_order_id)
    &&& unique_ids(bids)
    &&& entries_ok(asks, s.next_order_id)
    &&& unique_ids(asks)
    &&& disjoint_ids(bids, asks)
    &&& not_crossed(side_queue(Side::BUY, s.bid_side@), side_queue(Side::SELL, s.ask_side@))
}

/// `b` is the book that the snapshot `s` stands for: well formed, with the
/// queues rebuilt from its levels and its id allocator.
pub open spec fn snapshot_book(s: SnapshotData, b: BookView) -> bool {
    &&& b.wf()
    &&& b.bids == side_queue(Side::BUY, s.bid_side@)
    &&& b.asks == side_queue(Side::SELL, s.ask_side@)
    &&& b.next_id == s.next_order_id
}

/// Resting the entries of a queue already in priority order, one after
/// another, gives back that queue.
proof fn lemma_rest_all_sorted(side: Side, q: Seq<Resting>)
    requires
        sorted(side, q),
    ensures
        rest_all(side, q) == q,
    decreases q.len(),
{
    if q.len() > 0 {
        let d = q.drop_last();
        assert(sorted(side, d)) by {
            assert forall|i: int, j: int| 0 <= i < j < d.len() implies !better(side, price_of(#[trigger] d[j]), price_of(#[trigger] d[i])) by {
                assert(d[i] == q[i] && d[j] == q[j]);
            }
        }
        lemma_rest_all_sorted(side, d);
        if d.len() > 0 {
            assert(!better(side, price_of(q[q.len() - 1]), price_of(q[q.len() - 2])));
            assert(d.last() == q[q.len() - 2]);
        }
        assert(rest_pos(side, d, price_of(q.last())) == d.len());
        assert(d.insert(d.len() as int, q.last()) =~= q);
    }
}

proof fn lemma_kept_all(orders: Seq<SnapshotResting>, p: u64)
    requires
        forall|i: int| 0 <= i < orders.len() ==> kept(#[trigger] orders[i]),
    ensures
        kept_entries(orders, p) == orders.map_values(|s: SnapshotResting| to_resting(s, p)),
    decreases orders.len(),
{
    if orders.len() > 0 {
        let d = orders.drop_last();
        assert forall|i: int| 0 <= i < d.len() implies kept(#[trigger] d[i]) by {
            assert(d[i] == orders[i]);
        }
        lemma_kept_all(d, p);
        assert(kept(orders[orders.len() - 1]));
        assert(orders.map_values(|s: SnapshotResting| to_resting(s, p)) =~= d.map_values(
            |s: SnapshotResting| to_resting(s, p),
        ).push(to_resting(orders.last(), p)));
    }
}

/// When every entry that levels stand for is well formed, all their orders
/// are kept.
proof fn lemma_all_kept_flatten(ls: Seq<SnapshotLevel>)
    requires
        forall|i: int| 0 <= i < flatten(ls).len() ==> entry_ok(#[trigger] flatten(ls)[i]),
    ensures
        all_kept(ls) == flatten(ls),
    decreases ls.len(),
{
    if ls.len() > 0 {
        let d = ls.drop_last();
        let l = ls.last();
        let f = flatten(ls);
        let n = flatten(d).len();
        assert forall|i: int| 0 <= i < flatten(d).len() implies entry_ok(#[trigger] flatten(d)[i]) by {
            assert(f[i] == flatten(d)[i]);
        }
        lemma_all_kept_flatten(d);
        assert forall|i: int| 0 <= i < l.orders@.len() implies kept(#[trigger] l.orders@[i]) by {
            assert(f[n + i] == level_entries(l)[i]);
            assert(entry_ok(f[n + i]));
        }
        lemma_kept_all(l.orders@, l.price);
    }
}

proof fn lemma_flatten_push(ls: Seq<SnapshotLevel>, l: SnapshotLevel)
    ensures
        flatten(ls.push(l)) == flatten(ls) + level_entries(l),
{
    assert(ls.push(l).drop_last() =~= ls);
}

proof fn lemma_levels_ok_push(side: Side, ls: Seq<SnapshotLevel>, l: SnapshotLevel)
    ensures
        levels_ok(side, ls.push(l)) <==> levels_ok(side, ls) && l.orders@.len() > 0 && (ls.len() > 0
            ==> better(side, ls.last().price, l.price)),
{
    let t = ls.push(l);
    assert forall|i: int| 0 <= i < ls.len() implies t[i] == ls[i] by {}
    if levels_ok(side, t) {
        assert(t[ls.len() as int] == l);
        if ls.len() > 0 {
            assert(t[ls.len() - 1] == ls.last());
        }
        assert forall|i: int| 0 <= i < ls.len() - 1 implies better(side, (#[trigger] ls[i]).price, ls[i + 1].price) by {
            assert(t[i] == ls[i] && t[i + 1] == ls[i + 1]);
        }
    }
}

/// The persisted levels of a queue in priority order.
fn encode_side(side: Side, q: &Vec<Resting>, Ghost(next_id): Ghost<u64>) -> (levels: Vec<SnapshotLevel>)
    requires
        queue_wf(side, q@, next_id),
    ensures
        encodes_queue(side, q@, levels@),
{
    let mut levels: Vec<SnapshotLevel> = Vec::new();
    if q.len() == 0 {
        proof {
            assert(q@ =~= Seq::<Resting>::empty());
        }
        return levels;
    }
    let first = q[0];
    let mut cur = SnapshotLevel { price: first.price.unwrap(), orders: Vec::new() };
    cur.orders.push(SnapshotResting {
        id: first.id,
        quantity: first.quantity,
        ts: first.ts,
        remaining: first.remaining,
        active: first.active,
    });
    proof {
        assert(entry_ok(q@[0]));
        assert(level_entries(cur) =~= seq![q@[0]]);
        lemma_flatten_push(levels@, cur);
        lemma_levels_ok_push(side, levels@, cur);
        assert(q@.take(1) =~= seq![q@[0]]);
        assert(flatten(levels@) =~= Seq::<Resting>::empty());
    }
    let mut i: usize = 1;
    while i < q.len()
        invariant
            1 <= i <= q@.len(),
            queue_wf(side, q@, next_id),
            cur.price == price_of(q@[i - 1]),
            levels_ok(side, levels@.push(cur)),
            flatten(levels@.push(cur)) == q@.take(i as int),
        decreases q@.len() - i,
    {
        let r = q[i];
        let p = r.price.unwrap();
        let s = SnapshotResting {
            id: r.id,
            quantity: r.quantity,
            ts: r.ts,
            remaining: r.remaining,
            active: r.active,
        };
        proof {
            assert(entry_ok(q@[i as int]));
            assert(to_resting(s, p) == r);
            assert(q@.take(i + 1) =~= q@.take(i as int).push(r));
            lemma_flatten_push(levels@, cur);
            lemma_levels_ok_push(side, levels@, cur);
        }
        if p == cur.price {
            let ghost old_cur = cur;
            cur.orders.push(s);
            proof {
                assert(level_entries(cur) =~= level_entries(old_cur).push(r));
                lemma_flatten_push(levels@, cur);
                lemma_levels_ok_push(side, levels@, cur);
            }
        } else {
            proof {
                assert(!better(side, price_of(q@[i as int]), price_of(q@[i - 1])));
            }
            levels.push(cur);
            cur = SnapshotLevel { price: p, orders: Vec::new() };
            cur.orders.push(s);
            proof {
                assert(level_entries(cur) =~= seq![r]);
                lemma_flatten_push(levels@, cur);
                lemma_levels_ok_push(side, levels@, cur);
            }
        }
        i = i + 1;
    }
    levels.push(cur);
    proof {
        assert(q@.take(q@.len() as int) =~= q@);
    }
    levels
}

/// The snapshot of `book`: both sides level by level in priority order,
/// each level's orders in time priority, and the id allocator. The
/// watermark is left at 0 for the caller to stamp when it persists it.
pub fn from_book(book: &Book) -> (s: SnapshotData)
    requires
        book@.wf(),
    ensures
        encodes(book@, s),
{
    let bid_side = encode_side(Side::BUY, &book.bids, Ghost(book.next_order_id));
    let ask_side = encode_side(Side::SELL, &book.asks, Ghost(book.next_order_id));
    SnapshotData {
        version: SNAPSHOT_SCHEMA_VERSION,
        bid_side,
        ask_side,
        next_order_id: book.next_order_id,
        wal_high_watermark: 0,
    }
}

proof fn lemma_kept_prefix(orders: Seq<SnapshotResting>, p: u64, k: int)
    requires
        0 <= k <= orders.len(),
    ensures
        kept_entries(orders.take(k), p).len() <= kept_entries(orders, p).len(),
        forall|j: int|
            0 <= j < kept_entries(orders.take(k), p).len() ==> #[trigger] kept_entries(orders, p)[j]
                == kept_entries(orders.take(k), p)[j],
    decreases orders.len(),
{
    if k == orders.len() {
        assert(orders.take(k) =~= orders);
    } else {
        let d = orders.drop_last();
        assert(orders.take(k) =~= d.take(k));
        lemma_kept_prefix(d, p, k);
    }
}

proof fn lemma_all_kept_prefix(ls: Seq<SnapshotLevel>, k: int)
    requires
        0 <= k <= ls.len(),
    ensures
        all_kept(ls.take(k)).len() <= all_kept(ls).len(),
        forall|j: int|
            0 <= j < all_kept(ls.take(k)).len() ==> #[trigger] all_kept(ls)[j] == all_kept(ls.take(k))[j],
    decreases ls.len(),
{
    if k == ls.len() {
        assert(ls.take(k) =~= ls);
    } else {
        let d = ls.drop_last();
        assert(ls.take(k) =~= d.take(k));
        lemma_all_kept_prefix(d, k);
    }
}

/// Rebuilds the queue of `side` from its persisted levels, in whatever
/// order they come (see `side_queue`), adding each resting id to `index`.
/// Fails with `FormatMismatch` exactly when a kept order has more remaining
/// than its quantity or an id not below `next`, or an id occurs twice among
/// the kept orders or is already in `index`.
#[verifier::rlimit(100)]
fn decode_side(
    side: Side,
    ls: &Vec<SnapshotLevel>,
    next: u64,
    index: &mut HashMap<u64, (Side, u64)>,
) -> (r: PersistResult<Vec<Resting>>)
    ensures
        r is Ok <==> entries_ok(all_kept(ls@), next) && unique_ids(all_kept(ls@)) && (forall|i: int|
            0 <= i < all_kept(ls@).len() ==> !old(index)@.contains_key(
                (#[trigger] all_kept(ls@)[i]).id,
            )),
        r matches Err(e) ==> e == PersistanceError::FormatMismatch,
        r matches Ok(v) ==> {
            &&& v@ == side_queue(side, ls@)
            &&& queue_wf(side, v@, next)
            &&& forall|id: u64| has_id(v@, id) <==> has_id(all_kept(ls@), id)
            &&& forall|id: u64| #[trigger]
                final(index)@.contains_key(id) <==> old(index)@.contains_key(id) || has_id(v@, id)
            &&& forall|id: u64|
                old(index)@.contains_key(id) ==> #[trigger] final(index)@[id] == old(index)@[id]
            &&& indexed(final(index)@, side, v@)
            &&& forall|i: int| 0 <= i < v@.len() ==> !old(index)@.contains_key((#[trigger] v@[i]).id)
        },
{
    let ghost full = all_kept(ls@);
    let ghost ix0 = index@;
    let mut out: Vec<Resting> = Vec::new();
    let mut li: usize = 0;
    proof {
        assert(ls@.take(0) =~= Seq::<SnapshotLevel>::empty());
    }
    while li < ls.len()
        invariant
            li <= ls@.len(),
            ix0 == old(index)@,
            full == all_kept(ls@),
            out@ == rest_all(side, all_kept(ls@.take(li as int))),
            queue_wf(side, out@, next),
            entries_ok(all_kept(ls@.take(li as int)), next),
            unique_ids(all_kept(ls@.take(li as int))),
            forall|id: u64| has_id(out@, id) <==> has_id(all_kept(ls@.take(li as int)), id),
            forall|id: u64| #[trigger] index@.contains_key(id) <==> ix0.contains_key(id) || has_id(out@, id),
            forall|id: u64| ix0.contains_key(id) ==> #[trigger] index@[id] == ix0[id],
            indexed(index@, side, out@),
            forall|i: int| 0 <= i < out@.len() ==> !ix0.contains_key((#[trigger] out@[i]).id),
            forall|i: int|
                0 <= i < all_kept(ls@.take(li as int)).len() ==> !ix0.contains_key(
                    (#[trigger] all_kept(ls@.take(li as int))[i]).id,
                ),
        decreases ls@.len() - li,
    {
        let level = &ls[li];
        let p = level.price;
        let ghost before = all_kept(ls@.take(li as int));
        proof {
            assert(ls@.take(li + 1).drop_last() =~= ls@.take(li as int));
            lemma_all_kept_prefix(ls@, li + 1);
            assert(level.orders@.take(0) =~= Seq::<SnapshotResting>::empty());
            assert(before + kept_entries(level.orders@.take(0), p) =~= before);
        }
        let mut oi: usize = 0;
        while oi < level.orders.len()
            invariant
                li < ls@.len(),
                *level == ls@[li as int],
                p == level.price,
                oi <= level.orders@.len(),
                ix0 == old(index)@,
                full == all_kept(ls@),
                before == all_kept(ls@.take(li as int)),
                all_kept(ls@.take(li + 1)) == before + kept_entries(level.orders@, p),
                all_kept(ls@.take(li + 1)).len() <= full.len(),
                forall|j: int| 0 <= j < all_kept(ls@.take(li + 1)).len() ==> #[trigger] full[j] == all_kept(ls@.take(li + 1))[j],
                out@ == rest_all(side, before + kept_entries(level.orders@.take(oi as int), p)),
                queue_wf(side, out@, next),
                entries_ok(before + kept_entries(level.orders@.take(oi as int), p), next),
                unique_ids(before + kept_entries(level.orders@.take(oi as int), p)),
                forall|id: u64| has_id(out@, id) <==> has_id(before + kept_entries(level.orders@.take(oi as int), p), id),
                forall|id: u64| #[trigger] index@.contains_key(id) <==> ix0.contains_key(id) || has_id(out@, id),
                forall|id: u64| ix0.contains_key(id) ==> #[trigger] index@[id] == ix0[id],
                indexed(index@, side, out@),
                forall|i: int| 0 <= i < out@.len() ==> !ix0.contains_key((#[trigger] out@[i]).id),
                forall|i: int|
                    0 <= i < (before + kept_entries(level.orders@.take(oi as int), p)).len() ==> !ix0.contains_key(
                        (#[trigger] (before + kept_entries(level.orders@.take(oi as int), p))[i]).id,
                    ),
            decreases level.orders@.len() - oi,
        {
            let s = level.orders[oi];
            let ghost fp = before + kept_entries(level.orders@.take(oi as int), p);
            proof {
                assert(level.orders@.take(oi + 1).drop_last() =~= level.orders@.take(oi as int));
                assert(level.orders@.take(oi + 1).last() == s);
            }
            if s.active && s.remaining > 0 {
                let r = Resting {
                    id: s.id,
                    price: Some(p),
                    quantity: s.quantity,
                    ts: s.ts,
                    remaining: s.remaining,
                    active: s.active,
                };
                let ghost pos = fp.len() as int;
                let ghost fp2 = fp.push(r);
                proof {
                    assert(kept_entries(level.orders@.take(oi + 1), p) == kept_entries(level.orders@.take(oi as int), p).push(r));
                    assert(fp2 =~= before + kept_entries(level.orders@.take(oi + 1), p));
                    lemma_kept_prefix(level.orders@, p, oi + 1);
                    assert forall|j: int| 0 <= j < fp2.len() implies #[trigger] full[j] == fp2[j] by {
                        if j < before.len() {
                            assert(all_kept(ls@.take(li + 1))[j] == before[j]);
                        } else {
                            assert(all_kept(ls@.take(li + 1))[j] == kept_entries(level.orders@, p)[j - before.len()]);
                            assert(kept_entries(level.orders@.take(oi + 1), p)[j - before.len()] == kept_entries(level.orders@, p)[j - before.len()]);
                        }
                    }
                    assert(full[pos] == r);
                }
                if s.remaining > s.quantity || s.id >= next {
                    proof {
                        assert(!entries_ok(full, next));
                    }
                    return Err(PersistanceError::FormatMismatch);
                }
                if index.contains_key(&s.id) {
                    proof {
                        if !ix0.contains_key(s.id) {
                            assert(has_id(fp, s.id));
                            let j = choose|j: int| 0 <= j < fp.len() && (#[trigger] fp[j]).id == s.id;
                            assert(full[j] == fp2[j]);
                            assert(full[j].id == full[pos].id);
                            assert(!unique_ids(full));
                        } else {
                            assert(ix0.contains_key(full[pos].id));
                        }
                    }
                    return Err(PersistanceError::FormatMismatch);
                }
                let ghost prev = out@;
                let ghost k = rest_pos(side, prev, price_of(r));
                proof {
                    assert(!has_id(prev, r.id));
                    assert(forall|id: u64| has_id(prev, id) <==> has_id(fp, id));
                    lemma_rest_queue_wf(side, prev, r, next, next);
                }
                rest_in(&mut out, index, side, r);
                proof {
                    assert(out@ == prev.insert(k, r));
                    assert forall|i: int| 0 <= i < fp2.len() implies !ix0.contains_key((#[trigger] fp2[i]).id) by {
                        if i < pos {
                            assert(fp2[i] == fp[i]);
                        }
                    }
                    lemma_rest_pos(side, prev, price_of(r));
                    assert(fp2.drop_last() =~= fp);
                    assert(out@ == rest_all(side, fp2));
                    assert forall|i: int| 0 <= i < out@.len() implies (#[trigger] out@[i] == r && i == k) || (i < k && out@[i] == prev[i]) || (i > k && out@[i] == prev[i - 1]) by {}
                    assert forall|i: int| 0 <= i < fp2.len() implies entry_ok(#[trigger] fp2[i]) && fp2[i].id < next by {
                        if i < pos {
                            assert(fp2[i] == fp[i]);
                        }
                    }
                    assert forall|i: int, j: int| 0 <= i < j < fp2.len() implies (#[trigger] fp2[i]).id != (#[trigger] fp2[j]).id by {
                        if j < pos {
                            assert(fp2[i] == fp[i] && fp2[j] == fp[j]);
                        } else {
                            assert(fp2[i] == fp[i]);
                        }
                    }
                    assert forall|id: u64| has_id(out@, id) <==> has_id(fp2, id) by {
                        if has_id(out@, id) {
                            let i = choose|i: int| 0 <= i < out@.len() && (#[trigger] out@[i]).id == id;
                            if i == k {
                                assert(fp2[pos] == r);
                            } else {
                                let i2 = if i < k { i } else { i - 1 };
                                assert(out@[i] == prev[i2]);
                                assert(has_id(prev, id));
                                assert(has_id(fp, id));
                                let j = choose|j: int| 0 <= j < fp.len() && (#[trigger] fp[j]).id == id;
                                assert(fp2[j] == fp[j]);
                            }
                        }
                        if has_id(fp2, id) {
                            let j = choose|j: int| 0 <= j < fp2.len() && (#[trigger] fp2[j]).id == id;
                            if j == pos {
                                assert(out@[k] == r);
                            } else {
                                assert(fp2[j] == fp[j]);
                                assert(has_id(fp, id));
                                assert(has_id(prev, id));
                                let i = choose|i: int| 0 <= i < prev.len() && (#[trigger] prev[i]).id == id;
                                assert(has_id(out@, prev[i].id));
                            }
                        }
                    }
                    assert forall|id: u64| #[trigger] index@.contains_key(id) <==> ix0.contains_key(id) || has_id(out@, id) by {
                        if has_id(prev, id) {
                            let i = choose|i: int| 0 <= i < prev.len() && (#[trigger] prev[i]).id == id;
                            assert(has_id(out@, prev[i].id));
                        }
                        if has_id(out@, id) && id != r.id {
                            let i = choose|i: int| 0 <= i < out@.len() && (#[trigger] out@[i]).id == id;
                            if i < k {
                                assert(out@[i] == prev[i]);
                            } else {
                                assert(out@[i] == prev[i - 1]);
                            }
                        }
                    }
                    assert forall|i: int| 0 <= i < out@.len() implies index@.contains_key(#[trigger] out@[i].id) && index@[out@[i].id] == (side, price_of(out@[i])) && !ix0.contains_key(out@[i].id) by {
                        if i < k {
                            assert(out@[i] == prev[i]);
                        } else if i > k {
                            assert(out@[i] == prev[i - 1]);
                        }
                    }
                }
            } else {
                proof {
                    assert(kept_entries(level.orders@.take(oi + 1), p) == kept_entries(level.orders@.take(oi as int), p));
                }
            }
            oi = oi + 1;
        }
        proof {
            assert(level.orders@.take(oi as int) =~= level.orders@);
        }
        li = li + 1;
    }
    proof {
        assert(ls@.take(ls@.len() as int) =~= ls@);
    }
    Ok(out)
}

/// Replaces the state of `book` with the book that `snap` stands for (see
/// `snapshot_book`): both queues, whatever order the levels come in, the
/// index rebuilt from them, and the id allocator. Fails with
/// `FormatMismatch`, leaving `book` as it was, exactly when `snap` is not
/// valid (see `snapshot_valid`).
pub fn apply_to_book(book: &mut Book, snap: &SnapshotData) -> (r: PersistResult<()>)
    ensures
        r is Ok <==> snapshot_valid(*snap),
        r matches Err(e) ==> e == PersistanceError::FormatMismatch && final(book)@ == old(book)@,
        r is Ok ==> snapshot_book(*snap, final(book)@),
{
    if snap.version != SNAPSHOT_SCHEMA_VERSION || snap.next_order_id == 0 {
        return Err(PersistanceError::FormatMismatch);
    }
    let next = snap.next_order_id;
    let mut index: HashMap<u64, (Side, u64)> = HashMap::new();
    let bids = match decode_side(Side::BUY, &snap.bid_side, next, &mut index) {
        Ok(v) => v,
        Err(e) => {
            return Err(e);
        },
    };
    let ghost ix_b = index@;
    let ghost kb = all_kept(snap.bid_side@);
    let ghost ka = all_kept(snap.ask_side@);
    let asks = match decode_side(Side::SELL, &snap.ask_side, next, &mut index) {
        Ok(v) => v,
        Err(e) => {
            proof {
                if entries_ok(ka, next) && unique_ids(ka) {
                    let i = choose|i: int| 0 <= i < ka.len() && ix_b.contains_key((#[trigger] ka[i]).id);
                    let x = ka[i].id;
                    assert(has_id(bids@, x));
                    assert(has_id(kb, x));
                    let j = choose|j: int| 0 <= j < kb.len() && (#[trigger] kb[j]).id == x;
                    assert(!disjoint_ids(kb, ka));
                }
            }
            return Err(e);
        },
    };
    if bids.len() > 0 && asks.len() > 0 && price_exec(&bids[0]) >= price_exec(&asks[0]) {
        return Err(PersistanceError::FormatMismatch);
    }
    proof {
        assert forall|i: int, j: int| 0 <= i < kb.len() && 0 <= j < ka.len() implies (#[trigger] kb[i]).id != (#[trigger] ka[j]).id by {
            assert(has_id(kb, kb[i].id));
            assert(has_id(bids@, kb[i].id));
            assert(ix_b.contains_key(kb[i].id));
        }
        assert forall|i: int, j: int| 0 <= i < bids@.len() && 0 <= j < asks@.len() implies (#[trigger] bids@[i]).id != (#[trigger] asks@[j]).id by {
            assert(ix_b.contains_key(bids@[i].id));
        }
        assert forall|x: u64| #[trigger] index@.contains_key(x) implies has_id(bids@, x) || has_id(asks@, x) by {}
        assert forall|i: int| 0 <= i < bids@.len() implies index@.contains_key(#[trigger] bids@[i].id) && index@[bids@[i].id] == (Side::BUY, price_of(bids@[i])) by {
            assert(ix_b.contains_key(bids@[i].id));
        }
    }
    book.bids = bids;
    book.asks = asks;
    book.id_index = index;
    book.next_order_id = next;
    Ok(())
}

/// Two well-formed books with the same queues and id allocator are the
/// same book: the index is determined by the queues.
pub proof fn lemma_wf_determined(a: BookView, b: BookView)
    requires
        a.wf(),
        b.wf(),
        a.bids == b.bids,
        a.asks == b.asks,
        a.next_id == b.next_id,
    ensures
        a == b,
{
    assert(a.index =~= b.index) by {
        assert forall|x: u64| #[trigger] a.index.contains_key(x) implies b.index.contains_key(x) && a.index[x] == b.index[x] by {
            if has_id(a.bids, x) {
                let i = choose|i: int| 0 <= i < a.bids.len() && (#[trigger] a.bids[i]).id == x;
                assert(b.index.contains_key(b.bids[i].id));
            } else {
                let i = choose|i: int| 0 <= i < a.asks.len() && (#[trigger] a.asks[i]).id == x;
                assert(b.index.contains_key(b.asks[i].id));
            }
        }
        assert forall|x: u64| #[trigger] b.index.contains_key(x) implies a.index.contains_key(x) by {
            if has_id(b.bids, x) {
                let i = choose|i: int| 0 <= i < b.bids.len() && (#[trigger] b.bids[i]).id == x;
                assert(a.index.contains_key(a.bids[i].id));
            } else {
                let i = choose|i: int| 0 <= i < b.asks.len() && (#[trigger] b.asks[i]).id == x;
                assert(a.index.contains_key(a.asks[i].id));
            }
        }
    }
}

/// The snapshot of a well-formed book is accepted when applied, and the
/// book it rebuilds is the book it was taken from: the same bids, asks, id
/// allocator and index.
pub proof fn lemma_snapshot_round_trip(b: BookView, s: SnapshotData, rebuilt: BookView)
    requires
        b.wf(),
        encodes(b, s),
        snapshot_book(s, rebuilt),
    ensures
        snapshot_valid(s),
        rebuilt == b,
{
    lemma_all_kept_flatten(s.bid_side@);
    lemma_all_kept_flatten(s.ask_side@);
    lemma_rest_all_sorted(Side::BUY, b.bids);
    lemma_rest_all_sorted(Side::SELL, b.asks);
    lemma_wf_determined(rebuilt, b);
}

} // verus!
