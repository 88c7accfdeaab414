use vstd::prelude::*;

use crate::engine::types::{DoneReason, Event, Order, Resting, Side};

verus! {

/// Each side of the book is one queue in priority order: best price first,
/// and within one price the earliest accepted order first. A price level is
/// the run of entries that share one price.
pub ghost struct BookView {
    pub bids: Seq<Resting>,
    pub asks: Seq<Resting>,
    pub index: Map<u64, (Side, u64)>,
    pub next_id: u64,
}

/// The price a resting entry lives at.
pub open spec fn price_of(r: Resting) -> u64 {
    match r.price {
        Some(p) => p,
        None => 0,
    }
}

/// `a` is a strictly better price than `b` for orders resting on `side`.
pub open spec fn better(side: Side, a: u64, b: u64) -> bool {
    match side {
        Side::BUY => a > b,
        Side::SELL => a < b,
    }
}

/// A taker on `side` with limit `limit` may trade with a maker resting at `p`.
pub open spec fn crosses(side: Side, p: u64, limit: u64) -> bool {
    match side {
        Side::BUY => p <= limit,
        Side::SELL => p >= limit,
    }
}

/// A resting entry that may stay in a queue.
pub open spec fn entry_ok(r: Resting) -> bool {
    &&& r.price is Some
    &&& r.active
    &&& 0 < r.remaining <= r.quantity
}

/// The queue of `side` is in priority order.
pub open spec fn sorted(side: Side, q: Seq<Resting>) -> bool {
    forall|i: int, j: int|
        0 <= i < j < q.len() ==> !better(side, price_of(#[trigger] q[j]), price_of(#[trigger] q[i]))
}

/// No id occurs twice in `q`.
pub open spec fn unique_ids(q: Seq<Resting>) -> bool {
    forall|i: int, j: int| 0 <= i < j < q.len() ==> (#[trigger] q[i]).id != (#[trigger] q[j]).id
}

/// No id occurs in both `a` and `b`.
pub open spec fn disjoint_ids(a: Seq<Resting>, b: Seq<Resting>) -> bool {
    forall|i: int, j: int|
        0 <= i < a.len() && 0 <= j < b.len() ==> (#[trigger] a[i]).id != (#[trigger] b[j]).id
}

/// Every entry of `q` is well formed and has an id below `next_id`.
pub open spec fn entries_ok(q: Seq<Resting>, next_id: u64) -> bool {
    forall|i: int| 0 <= i < q.len() ==> entry_ok(#[trigger] q[i]) && q[i].id < next_id
}

/// The queue of `side` is well formed.
pub open spec fn queue_wf(side: Side, q: Seq<Resting>, next_id: u64) -> bool {
    &&& entries_ok(q, next_id)
    &&& sorted(side, q)
    &&& unique_ids(q)
}

/// Every entry of `q` is found in `index` under its side and price.
pub open spec fn indexed(index: Map<u64, (Side, u64)>, side: Side, q: Seq<Resting>) -> bool {
    forall|i: int|
        0 <= i < q.len() ==> index.contains_key(#[trigger] q[i].id) && index[q[i].id] == (
            side,
            price_of(q[i]),
        )
}

/// Some entry of `q` has the id `id`.
pub open spec fn has_id(q: Seq<Resting>, id: u64) -> bool {
    exists|i: int| 0 <= i < q.len() && (#[trigger] q[i]).id == id
}

/// The ids of the entries of `q`.
pub open spec fn ids_of(q: Seq<Resting>) -> Set<u64> {
    Set::new(|id: u64| has_id(q, id))
}

/// The best bid is strictly below the best ask whenever both exist.
pub open spec fn not_crossed(bids: Seq<Resting>, asks: Seq<Resting>) -> bool {
    bids.len() > 0 && asks.len() > 0 ==> price_of(bids[0]) < price_of(asks[0])
}

impl BookView {
    /// The queue that orders of `side` rest in.
    pub open spec fn queue(self, side: Side) -> Seq<Resting> {
        match side {
            Side::BUY => self.bids,
            Side::SELL => self.asks,
        }
    }

    /// The invariant of the book: both queues are well formed, ids are unique
    /// across the book, the index maps exactly the resting ids to their side
    /// and price, and the book is not crossed.
    pub open spec fn wf(self) -> bool {
        &&& self.next_id >= 1
        &&& queue_wf(Side::BUY, self.bids, self.next_id)
        &&& queue_wf(Side::SELL, self.asks, self.next_id)
        &&& disjoint_ids(self.bids, self.asks)
        &&& indexed(self.index, Side::BUY, self.bids)
        &&& indexed(self.index, Side::SELL, self.asks)
        &&& forall|id: u64| #[trigger]
            self.index.contains_key(id) ==> has_id(self.bids, id) || has_id(self.asks, id)
        &&& not_crossed(self.bids, self.asks)
    }
}

/// The fill event of `taker` against maker `m` for `qty`, at the maker's price.
pub open spec fn fill_event(taker: u64, m: Resting, qty: u64, ts: u64) -> Event {
    Event::Fill { taker_id: taker, maker_id: m.id, price: price_of(m), qty, ts }
}

/// A taker `taker` on `side` with limit `limit` and `qty` open trades with the
/// maker queue `q`, front first, while it has quantity left and the front
/// maker's price crosses the limit. Result: the maker queue afterwards, the
/// quantity left, and the fills in order.
pub open spec fn walk(taker: u64, side: Side, limit: u64, qty: u64, q: Seq<Resting>, ts: u64) -> (
    Seq<Resting>,
    u64,
    Seq<Event>,
)
    decreases q.len(),
{
    if qty == 0 || q.len() == 0 || !crosses(side, price_of(q[0]), limit) {
        (q, qty, Seq::empty())
    } else if q[0].remaining <= qty {
        let r = walk(taker, side, limit, (qty - q[0].remaining) as u64, q.drop_first(), ts);
        (r.0, r.1, seq![fill_event(taker, q[0], q[0].remaining, ts)] + r.2)
    } else {
        (
            q.update(0, Resting { remaining: (q[0].remaining - qty) as u64, ..q[0] }),
            0,
            seq![fill_event(taker, q[0], qty, ts)],
        )
    }
}

/// Where a new order at `p` joins the queue of `side`: behind every entry
/// whose price is as good as or better than `p`.
pub open spec fn rest_pos(side: Side, q: Seq<Resting>, p: u64) -> int
    decreases q.len(),
{
    if q.len() > 0 && better(side, p, price_of(q.last())) {
        rest_pos(side, q.drop_last(), p)
    } else {
        q.len() as int
    }
}

/// The terminal event of order `id`.
pub open spec fn done(id: u64, reason: DoneReason, ts: u64) -> Event {
    Event::Done { id, reason, ts }
}

/// The new bids, the new asks and the events of a limit order `id` on
/// `side` at `limit` for `qty`.
pub open spec fn limit_outcome(
    b: BookView,
    id: u64,
    side: Side,
    limit: u64,
    qty: u64,
    ts: u64,
) -> (Seq<Resting>, Seq<Resting>, Seq<Event>) {
    let w = walk(id, side, limit, qty, b.queue(side.opposite()), ts);
    let own = b.queue(side);
    let own2 = if w.1 > 0 {
        own.insert(
            rest_pos(side, own, limit),
            Resting { id, price: Some(limit), quantity: qty, ts, remaining: w.1, active: true },
        )
    } else {
        own
    };
    let events = w.2.push(
        done(id, if w.1 > 0 { DoneReason::Rested } else { DoneReason::Filled }, ts),
    );
    match side {
        Side::BUY => (own2, w.0, events),
        Side::SELL => (w.0, own2, events),
    }
}

/// The new bids, the new asks and the events of a market order `id` on
/// `side` for `qty`: it trades with the best opposite level only.
pub open spec fn market_outcome(b: BookView, id: u64, side: Side, qty: u64, ts: u64) -> (
    Seq<Resting>,
    Seq<Resting>,
    Seq<Event>,
) {
    let makers = b.queue(side.opposite());
    if makers.len() == 0 {
        (b.bids, b.asks, seq![done(id, DoneReason::Rejected, ts)])
    } else {
        let w = walk(id, side, price_of(makers[0]), qty, makers, ts);
        let events = w.2.push(
            done(id, if w.1 == 0 { DoneReason::Filled } else { DoneReason::Rejected }, ts),
        );
        match side {
            Side::BUY => (b.bids, w.0, events),
            Side::SELL => (w.0, b.asks, events),
        }
    }
}

/// The new bids, the new asks and the events of order `o` (its id given).
pub open spec fn order_outcome(b: BookView, o: Order, ts: u64) -> (
    Seq<Resting>,
    Seq<Resting>,
    Seq<Event>,
) {
    if o.quantity == 0 {
        (b.bids, b.asks, seq![done(o.id, DoneReason::Rejected, ts)])
    } else {
        match o.price {
            None => market_outcome(b, o.id, o.side, o.quantity, ts),
            Some(p) => limit_outcome(b, o.id, o.side, p, o.quantity, ts),
        }
    }
}

/// What the walk leaves of the maker queue: a suffix of it, whose front entry
/// may have lost part of its remaining quantity.
pub proof fn lemma_walk_shape(taker: u64, side: Side, limit: u64, qty: u64, q: Seq<Resting>, ts: u64)
    requires
        forall|i: int| 0 <= i < q.len() ==> entry_ok(#[trigger] q[i]),
    ensures
        ({
            let w = walk(taker, side, limit, qty, q, ts);
            let d = q.len() - w.0.len();
            &&& 0 <= d <= q.len()
            &&& w.1 <= qty
            &&& w.1 > 0 ==> w.0 == q.skip(d)
            &&& w.0.len() > 0 ==> w.0.drop_first() == q.skip(d + 1)
            &&& w.0.len() > 0 ==> w.0[0] == (Resting { remaining: w.0[0].remaining, ..q[d] })
            &&& w.0.len() > 0 ==> 0 < w.0[0].remaining <= q[d].remaining
            &&& w.1 > 0 && w.0.len() > 0 ==> !crosses(side, price_of(w.0[0]), limit)
        }),
    decreases q.len(),
{
    let w = walk(taker, side, limit, qty, q, ts);
    if qty == 0 || q.len() == 0 || !crosses(side, price_of(q[0]), limit) {
        assert(q.skip(0) =~= q);
        if q.len() > 0 {
            assert(q.drop_first() =~= q.skip(1));
        }
    } else if q[0].remaining <= qty {
        let rest = q.drop_first();
        assert forall|i: int| 0 <= i < rest.len() implies entry_ok(#[trigger] rest[i]) by {
            assert(rest[i] == q[i + 1]);
        }
        lemma_walk_shape(taker, side, limit, (qty - q[0].remaining) as u64, rest, ts);
        let r = walk(taker, side, limit, (qty - q[0].remaining) as u64, rest, ts);
        let d1 = rest.len() - r.0.len();
        assert(rest.skip(d1) =~= q.skip(d1 + 1));
        if r.0.len() > 0 {
            assert(rest.skip(d1 + 1) =~= q.skip(d1 + 2));
            assert(rest[d1] == q[d1 + 1]);
        }
    } else {
        assert(w.0.drop_first() =~= q.skip(1));
    }
}

/// The position where an order at `p` joins a sorted queue: every entry
/// before it is at least as good as `p`, every entry after it worse.
pub proof fn lemma_rest_pos(side: Side, q: Seq<Resting>, p: u64)
    requires
        sorted(side, q),
    ensures
        0 <= rest_pos(side, q, p) <= q.len(),
        forall|i: int| 0 <= i < rest_pos(side, q, p) ==> !better(side, p, price_of(#[trigger] q[i])),
        forall|i: int|
            rest_pos(side, q, p) <= i < q.len() ==> better(side, p, price_of(#[trigger] q[i])),
    decreases q.len(),
{
    if q.len() > 0 && better(side, p, price_of(q.last())) {
        let s = q.drop_last();
        assert(sorted(side, s)) by {
            assert forall|i: int, j: int| 0 <= i < j < s.len() implies !better(side, price_of(#[trigger] s[j]), price_of(#[trigger] s[i])) by {
                assert(s[i] == q[i] && s[j] == q[j]);
            }
        }
        lemma_rest_pos(side, s, p);
        assert forall|i: int| rest_pos(side, q, p) <= i < q.len() implies better(side, p, price_of(#[trigger] q[i])) by {
            if i < q.len() - 1 {
                assert(s[i] == q[i]);
            }
        }
        assert forall|i: int| 0 <= i < rest_pos(side, q, p) implies !better(side, p, price_of(#[trigger] q[i])) by {
            assert(s[i] == q[i]);
        }
    } else if q.len() > 0 {
        assert forall|i: int| 0 <= i < q.len() implies !better(side, p, price_of(#[trigger] q[i])) by {
            if i < q.len() - 1 {
                assert(!better(side, price_of(q[q.len() - 1]), price_of(q[i])));
            }
        }
    }
}

/// Joining an order at its resting position keeps a queue well formed.
pub proof fn lemma_rest_queue_wf(side: Side, q: Seq<Resting>, r: Resting, next_id: u64, n2: u64)
    requires
        queue_wf(side, q, next_id),
        next_id <= n2,
        entry_ok(r),
        r.id < n2,
        !has_id(q, r.id),
    ensures
        queue_wf(side, q.insert(rest_pos(side, q, price_of(r)), r), n2),
        forall|i: int|
            0 <= i < q.len() ==> has_id(q.insert(rest_pos(side, q, price_of(r)), r), #[trigger] q[i].id),
        q.insert(rest_pos(side, q, price_of(r)), r)[rest_pos(side, q, price_of(r))] == r,
{
    let k = rest_pos(side, q, price_of(r));
    lemma_rest_pos(side, q, price_of(r));
    let q2 = q.insert(k, r);
    assert forall|i: int| 0 <= i < q2.len() implies entry_ok(#[trigger] q2[i]) && q2[i].id < n2 by {
        if i < k {
            assert(q2[i] == q[i]);
        } else if i > k {
            assert(q2[i] == q[i - 1]);
        }
    }
    assert forall|i: int, j: int| 0 <= i < j < q2.len() implies !better(side, price_of(#[trigger] q2[j]), price_of(#[trigger] q2[i])) && q2[i].id != q2[j].id by {
        if j < k {
            assert(q2[i] == q[i] && q2[j] == q[j]);
        } else if j == k {
            assert(q2[i] == q[i]);
        } else if i < k {
            assert(q2[i] == q[i] && q2[j] == q[j - 1]);
        } else if i == k {
            assert(q2[j] == q[j - 1]);
        } else {
            assert(q2[i] == q[i - 1] && q2[j] == q[j - 1]);
        }
    }
    assert forall|i: int| 0 <= i < q.len() implies has_id(q2, #[trigger] q[i].id) by {
        if i < k {
            assert(q2[i] == q[i]);
        } else {
            assert(q2[i + 1] == q[i]);
        }
    }
}

/// What the walk leaves of a well-formed maker queue is well formed, and
/// holds exactly the ids of the entries it did not remove.
pub proof fn lemma_walk_queue_wf(
    taker: u64,
    side: Side,
    limit: u64,
    qty: u64,
    q: Seq<Resting>,
    ts: u64,
    next_id: u64,
    n2: u64,
)
    requires
        queue_wf(side.opposite(), q, next_id),
        next_id <= n2,
    ensures
        ({
            let w = walk(taker, side, limit, qty, q, ts);
            let d = q.len() - w.0.len();
            &&& queue_wf(side.opposite(), w.0, n2)
            &&& forall|i: int| 0 <= i < w.0.len() ==> (#[trigger] w.0[i]).id == q[d + i].id
                && price_of(w.0[i]) == price_of(q[d + i])
            &&& forall|k: int| d <= k < q.len() ==> has_id(w.0, (#[trigger] q[k]).id)
            &&& forall|i: int| 0 <= i < w.0.len() ==> !ids_of(q.take(d)).contains(
                (#[trigger] w.0[i]).id,
            )
        }),
{
    let w = walk(taker, side, limit, qty, q, ts);
    let d = q.len() - w.0.len();
    lemma_walk_shape(taker, side, limit, qty, q, ts);
    assert forall|i: int| 0 <= i < w.0.len() implies (#[trigger] w.0[i]).id == q[d + i].id
        && price_of(w.0[i]) == price_of(q[d + i]) && entry_ok(w.0[i]) by {
        if i > 0 {
            assert(w.0[i] == w.0.drop_first()[i - 1]);
            assert(q.skip(d + 1)[i - 1] == q[d + i]);
        }
    }
    assert forall|i: int| 0 <= i < w.0.len() implies entry_ok(#[trigger] w.0[i]) && w.0[i].id < n2 by {
        assert(entry_ok(q[d + i]));
    }
    assert forall|i: int, j: int| 0 <= i < j < w.0.len() implies !better(side.opposite(), price_of(#[trigger] w.0[j]), price_of(#[trigger] w.0[i])) && w.0[i].id != w.0[j].id by {
        assert(q[d + i].id != q[d + j].id);
        assert(!better(side.opposite(), price_of(q[d + j]), price_of(q[d + i])));
    }
    assert forall|k: int| d <= k < q.len() implies has_id(w.0, (#[trigger] q[k]).id) by {
        assert(w.0[k - d].id == q[k].id);
    }
    assert forall|i: int| 0 <= i < w.0.len() implies !ids_of(q.take(d)).contains((#[trigger] w.0[i]).id) by {
        if has_id(q.take(d), w.0[i].id) {
            let j = choose|j: int| 0 <= j < q.take(d).len() && (#[trigger] q.take(d)[j]).id == w.0[i].id;
            assert(q.take(d)[j] == q[j]);
            assert(q[j].id != q[d + i].id);
        }
    }
}

/// The book whose queue for `side` is `own` and whose other queue is `makers`.
pub open spec fn from_sides(
    side: Side,
    own: Seq<Resting>,
    makers: Seq<Resting>,
    index: Map<u64, (Side, u64)>,
    next_id: u64,
) -> BookView {
    match side {
        Side::BUY => BookView { bids: own, asks: makers, index, next_id },
        Side::SELL => BookView { bids: makers, asks: own, index, next_id },
    }
}

/// The ids a walk removed from the maker queue `makers`, leaving `left_q`.
pub open spec fn removed_ids(makers: Seq<Resting>, left_q: Seq<Resting>) -> Set<u64> {
    ids_of(makers.take(makers.len() - left_q.len()))
}

/// A walk of a taker over the opposite side, with the makers it removed
/// taken out of the index, leaves a well-formed book.
pub proof fn lemma_walk_wf(b: BookView, id: u64, side: Side, limit: u64, qty: u64, ts: u64, n2: u64)
    requires
        b.wf(),
        b.next_id <= n2,
    ensures
        ({
            let makers = b.queue(side.opposite());
            let w = walk(id, side, limit, qty, makers, ts);
            from_sides(
                side,
                b.queue(side),
                w.0,
                b.index.remove_keys(removed_ids(makers, w.0)),
                n2,
            ).wf()
        }),
{
    let makers = b.queue(side.opposite());
    let own = b.queue(side);
    let w = walk(id, side, limit, qty, makers, ts);
    let d = makers.len() - w.0.len();
    let gone = removed_ids(makers, w.0);
    let ix1 = b.index.remove_keys(gone);
    let v = from_sides(side, own, w.0, ix1, n2);
    lemma_walk_shape(id, side, limit, qty, makers, ts);
    lemma_walk_queue_wf(id, side, limit, qty, makers, ts, b.next_id, n2);
    assert(queue_wf(side, own, n2));
    assert(disjoint_ids(own, makers) || disjoint_ids(makers, own));
    assert forall|i: int| 0 <= i < own.len() implies !gone.contains(#[trigger] own[i].id) by {
        if has_id(makers.take(d), own[i].id) {
            let j = choose|j: int| 0 <= j < makers.take(d).len() && (#[trigger] makers.take(d)[j]).id == own[i].id;
            assert(makers.take(d)[j] == makers[j]);
        }
    }
    assert forall|i: int, j: int| 0 <= i < own.len() && 0 <= j < w.0.len() implies (#[trigger] own[i]).id != (#[trigger] w.0[j]).id by {
        assert(w.0[j].id == makers[d + j].id);
    }
    assert(indexed(ix1, side, own));
    assert forall|i: int| 0 <= i < w.0.len() implies ix1.contains_key(#[trigger] w.0[i].id) && ix1[w.0[i].id] == (side.opposite(), price_of(w.0[i])) by {
        assert(w.0[i].id == makers[d + i].id);
        assert(b.index[makers[d + i].id] == (side.opposite(), price_of(makers[d + i])));
    }
    assert forall|x: u64| #[trigger] ix1.contains_key(x) implies has_id(own, x) || has_id(w.0, x) by {
        assert(b.index.contains_key(x));
        if !has_id(own, x) {
            assert(has_id(makers, x));
            let k = choose|k: int| 0 <= k < makers.len() && (#[trigger] makers[k]).id == x;
            if k < d {
                assert(makers.take(d)[k] == makers[k]);
                assert(has_id(makers.take(d), x));
            }
        }
    }
    if w.0.len() > 0 && own.len() > 0 {
        assert(!better(side.opposite(), price_of(makers[d]), price_of(makers[0])));
    }
    match side {
        Side::BUY => {
            assert(v.wf());
        },
        Side::SELL => {
            assert(v.wf());
        },
    }
}

/// Resting an order with a fresh id at its limit, on a book whose opposite
/// front does not cross that limit, leaves the book well formed.
pub proof fn lemma_rest_wf(v: BookView, side: Side, r: Resting)
    requires
        v.wf(),
        entry_ok(r),
        r.id < v.next_id,
        !v.index.contains_key(r.id),
        v.queue(side.opposite()).len() > 0 ==> !crosses(
            side,
            price_of(v.queue(side.opposite())[0]),
            price_of(r),
        ),
    ensures
        ({
            let own = v.queue(side);
            from_sides(
                side,
                own.insert(rest_pos(side, own, price_of(r)), r),
                v.queue(side.opposite()),
                v.index.insert(r.id, (side, price_of(r))),
                v.next_id,
            ).wf()
        }),
{
    let own = v.queue(side);
    let makers = v.queue(side.opposite());
    let k = rest_pos(side, own, price_of(r));
    let own2 = own.insert(k, r);
    let ix2 = v.index.insert(r.id, (side, price_of(r)));
    let v2 = from_sides(side, own2, makers, ix2, v.next_id);
    assert(!has_id(own, r.id)) by {
        if has_id(own, r.id) {
            let j = choose|j: int| 0 <= j < own.len() && (#[trigger] own[j]).id == r.id;
            assert(v.index.contains_key(own[j].id));
        }
    }
    assert(!has_id(makers, r.id)) by {
        if has_id(makers, r.id) {
            let j = choose|j: int| 0 <= j < makers.len() && (#[trigger] makers[j]).id == r.id;
            assert(v.index.contains_key(makers[j].id));
        }
    }
    lemma_rest_queue_wf(side, own, r, v.next_id, v.next_id);
    lemma_rest_pos(side, own, price_of(r));
    assert forall|i: int| 0 <= i < own2.len() implies (#[trigger] own2[i] == r || (i < k && own2[i] == own[i]) || (i > k && own2[i] == own[i - 1])) by {}
    assert forall|i: int, j: int| 0 <= i < own2.len() && 0 <= j < makers.len() implies (#[trigger] own2[i]).id != (#[trigger] makers[j]).id by {
        if i < k {
            assert(own2[i] == own[i]);
        } else if i > k {
            assert(own2[i] == own[i - 1]);
        }
    }
    assert forall|i: int| 0 <= i < own2.len() implies ix2.contains_key(#[trigger] own2[i].id) && ix2[own2[i].id] == (side, price_of(own2[i])) by {
        if i < k {
            assert(own2[i] == own[i]);
        } else if i > k {
            assert(own2[i] == own[i - 1]);
        }
    }
    assert forall|j: int| 0 <= j < makers.len() implies ix2.contains_key(#[trigger] makers[j].id) && ix2[makers[j].id] == (side.opposite(), price_of(makers[j])) by {}
    assert forall|x: u64| #[trigger] ix2.contains_key(x) implies has_id(own2, x) || has_id(makers, x) by {
        if x == r.id {
            assert(own2[k] == r);
        } else if has_id(own, x) {
            let j = choose|j: int| 0 <= j < own.len() && (#[trigger] own[j]).id == x;
            assert(has_id(own2, own[j].id));
        }
    }
    if own.len() > 0 && makers.len() > 0 && k == 0 {
        assert(own2[0] == r);
    }
    if own.len() > 0 && k > 0 {
        assert(own2[0] == own[0]);
    }
    match side {
        Side::BUY => {
            assert(v2.wf());
        },
        Side::SELL => {
            assert(v2.wf());
        },
    }
}

/// The position of the entry with id `id` in `q`.
pub open spec fn pos_of(q: Seq<Resting>, id: u64) -> int {
    choose|i: int| 0 <= i < q.len() && (#[trigger] q[i]).id == id
}

/// The book after cancelling `id`: unchanged when `id` is not resting;
/// otherwise its entry leaves its queue and the index.
pub open spec fn cancel_view(b: BookView, id: u64) -> BookView {
    if !b.index.contains_key(id) {
        b
    } else {
        match b.index[id].0 {
            Side::BUY => BookView {
                bids: b.bids.remove(pos_of(b.bids, id)),
                index: b.index.remove(id),
                ..b
            },
            Side::SELL => BookView {
                asks: b.asks.remove(pos_of(b.asks, id)),
                index: b.index.remove(id),
                ..b
            },
        }
    }
}

/// Removing one entry keeps a queue well formed.
pub proof fn lemma_queue_remove(side: Side, q: Seq<Resting>, k: int, next_id: u64)
    requires
        queue_wf(side, q, next_id),
        0 <= k < q.len(),
    ensures
        queue_wf(side, q.remove(k), next_id),
        forall|i: int| 0 <= i < q.len() && i != k ==> has_id(q.remove(k), #[trigger] q[i].id),
        forall|x: u64| has_id(q.remove(k), x) ==> has_id(q, x) && x != q[k].id,
{
    let q2 = q.remove(k);
    assert forall|i: int| 0 <= i < q2.len() implies q2[i] == (if i < k { q[i] } else { q[i + 1] }) by {}
    assert forall|i: int| 0 <= i < q.len() && i != k implies has_id(q2, #[trigger] q[i].id) by {
        if i < k {
            assert(q2[i] == q[i]);
        } else {
            assert(q2[i - 1] == q[i]);
        }
    }
    assert forall|x: u64| has_id(q2, x) implies has_id(q, x) && x != q[k].id by {
        let j = choose|j: int| 0 <= j < q2.len() && (#[trigger] q2[j]).id == x;
        if j < k {
            assert(q2[j] == q[j]);
        } else {
            assert(q2[j] == q[j + 1]);
        }
    }
    assert(forall|i: int, j: int| 0 <= i < j < q2.len() ==> (#[trigger] q2[i]).id != (#[trigger] q2[j]).id && !better(side, price_of(q2[j]), price_of(q2[i])));
}

/// Cancelling keeps the book well formed, and the id is no longer resting.
pub proof fn lemma_cancel_wf(b: BookView, id: u64)
    requires
        b.wf(),
    ensures
        cancel_view(b, id).wf(),
        !cancel_view(b, id).index.contains_key(id),
        cancel_view(b, id).next_id == b.next_id,
        b.index.contains_key(id) ==> has_id(b.queue(b.index[id].0), id),
{
    if b.index.contains_key(id) {
        let side = b.index[id].0;
        let q = b.queue(side);
        let other = b.queue(side.opposite());
        assert(has_id(q, id)) by {
            if !has_id(q, id) {
                assert(has_id(other, id));
                let j = choose|j: int| 0 <= j < other.len() && (#[trigger] other[j]).id == id;
                assert(b.index[other[j].id].0 == side.opposite());
            }
        }
        let k = pos_of(q, id);
        lemma_queue_remove(side, q, k, b.next_id);
        let q2 = q.remove(k);
        let ix = b.index.remove(id);
        let v = cancel_view(b, id);
        assert(v == from_sides(side, q2, other, ix, b.next_id));
        assert forall|i: int| 0 <= i < q2.len() implies (#[trigger] q2[i]).id != id && ix.contains_key(q2[i].id) && ix[q2[i].id] == (side, price_of(q2[i])) by {
            assert(q2[i] == (if i < k { q[i] } else { q[i + 1] }));
        }
        assert forall|j: int| 0 <= j < other.len() implies (#[trigger] other[j]).id != id by {
            assert(q[k].id == id);
        }
        assert forall|i: int, j: int| 0 <= i < q2.len() && 0 <= j < other.len() implies (#[trigger] q2[i]).id != (#[trigger] other[j]).id by {
            assert(q2[i] == (if i < k { q[i] } else { q[i + 1] }));
        }
        assert forall|x: u64| #[trigger] ix.contains_key(x) implies has_id(q2, x) || has_id(other, x) by {
            if has_id(q, x) {
                let j = choose|j: int| 0 <= j < q.len() && (#[trigger] q[j]).id == x;
                assert(has_id(q2, q[j].id));
            }
        }
        if q2.len() > 0 && k == 0 {
            assert(!better(side, price_of(q[1]), price_of(q[0])));
        }
        if q2.len() > 0 && k > 0 {
            assert(q2[0] == q[0]);
        }
        match side {
            Side::BUY => {
                assert(v.wf());
            },
            Side::SELL => {
                assert(v.wf());
            },
        }
    }
}

/// The sum of `remaining` over the active entries of `q` resting at `p`.
pub open spec fn level_size(q: Seq<Resting>, p: u64) -> nat
    decreases q.len(),
{
    if q.len() == 0 {
        0
    } else {
        level_size(q.drop_last(), p) + if q.last().active && price_of(q.last()) == p {
            q.last().remaining as nat
        } else {
            0
        }
    }
}

/// `n` capped at the largest `u64`.
pub open spec fn cap(n: nat) -> u64 {
    if n <= u64::MAX {
        n as u64
    } else {
        u64::MAX
    }
}

/// The best level of a queue: its price and aggregate size (capped at the
/// largest `u64`), or `None` for an empty queue.
pub open spec fn best_level(q: Seq<Resting>) -> Option<(u64, u64)> {
    if q.len() == 0 {
        None
    } else {
        Some((price_of(q[0]), cap(level_size(q, price_of(q[0])))))
    }
}

/// The number of price levels in a queue in priority order: the number of
/// entries whose price differs from the entry before them.
pub open spec fn level_count(q: Seq<Resting>) -> nat
    decreases q.len(),
{
    if q.len() == 0 {
        0
    } else {
        level_count(q.drop_last()) + if q.len() == 1 || price_of(q[q.len() - 2]) != price_of(
            q.last(),
        ) {
            1nat
        } else {
            0nat
        }
    }
}

} // verus!
