use std::collections::HashMap;
use vstd::prelude::*;

use crate::engine::clock::event_timestamp;
use crate::engine::model::{
    best_level, better, cancel_view, cap, crosses, done, entry_ok, from_sides, has_id, ids_of,
    lemma_cancel_wf, lemma_rest_wf, lemma_walk_shape, lemma_walk_wf, level_count, level_size,
    limit_outcome, market_outcome, order_outcome, pos_of, price_of, removed_ids, rest_pos, walk,
    BookView,
};
use crate::engine::types::{DoneReason, Event, Order, OrderRequest, Resting, Side, SubmitResult};

verus! {

broadcast use vstd::std_specs::hash::group_hash_axioms;

/// A single-symbol limit order book.
///
/// `bids` and `asks` each hold the resting orders of one side in priority
/// order (best price first, then time of acceptance); `id_index` maps each
/// resting id to its side and price; `next_order_id` is the id the next
/// accepted order gets.
pub struct Book {
    pub bids: Vec<Resting>,
    pub asks: Vec<Resting>,
    pub id_index: HashMap<u64, (Side, u64)>,
    pub next_order_id: u64,
}

impl View for Book {
    type V = BookView;

    open spec fn view(&self) -> BookView {
        BookView {
            bids: self.bids@,
            asks: self.asks@,
            index: self.id_index@,
            next_id: self.next_order_id,
        }
    }
}

pub(crate) fn price_exec(r: &Resting) -> (p: u64)
    ensures
        p == price_of(*r),
{
    match r.price {
        Some(p) => p,
        None => 0,
    }
}

fn crosses_exec(side: Side, p: u64, limit: u64) -> (r: bool)
    ensures
        r == crosses(side, p, limit),
{
    match side {
        Side::BUY => p <= limit,
        Side::SELL => p >= limit,
    }
}

/// Trades taker `taker` (on `side`, limit `limit`, `qty` open) against the
/// maker queue `makers`, removing each maker it fills completely from the
/// queue and from the index, and appending one fill per maker it touches.
/// Returns the quantity left.
fn fill_against(
    makers: &mut Vec<Resting>,
    index: &mut HashMap<u64, (Side, u64)>,
    taker: u64,
    side: Side,
    limit: u64,
    qty: u64,
    ts: u64,
    events: &mut Vec<Event>,
) -> (left: u64)
    requires
        forall|i: int| 0 <= i < old(makers)@.len() ==> entry_ok(#[trigger] old(makers)@[i]),
    ensures
        ({
            let w = walk(taker, side, limit, qty, old(makers)@, ts);
            &&& final(makers)@ == w.0
            &&& left == w.1
            &&& final(events)@ == old(events)@ + w.2
            &&& final(index)@ == old(index)@.remove_keys(
                ids_of(old(makers)@.take(old(makers)@.len() - w.0.len())),
            )
        }),
{
    let ghost q0 = makers@;
    let ghost ev0 = events@;
    let ghost ix0 = index@;
    let ghost w0 = walk(taker, side, limit, qty, q0, ts);
    let mut left: u64 = qty;
    proof {
        assert(q0.take(0) =~= Seq::<Resting>::empty());
        assert(ids_of(q0.take(0)) =~= Set::<u64>::empty());
        assert(ix0.remove_keys(Set::<u64>::empty()) =~= ix0);
        assert(q0.skip(0) =~= q0);
    }
    while left > 0 && makers.len() > 0 && crosses_exec(side, price_exec(&makers[0]), limit)
        invariant
            forall|i: int| 0 <= i < makers@.len() ==> entry_ok(#[trigger] makers@[i]),
            w0 == walk(taker, side, limit, qty, q0, ts),
            walk(taker, side, limit, left, makers@, ts).0 == w0.0,
            walk(taker, side, limit, left, makers@, ts).1 == w0.1,
            events@ + walk(taker, side, limit, left, makers@, ts).2 == ev0 + w0.2,
            makers@.len() <= q0.len(),
            left > 0 ==> makers@ == q0.skip(q0.len() - makers@.len()),
            index@ == ix0.remove_keys(ids_of(q0.take(q0.len() - makers@.len()))),
        decreases makers@.len() + left,
    {
        let m = makers[0];
        let p = price_exec(&m);
        let ghost cur = makers@;
        let ghost d = q0.len() - cur.len();
        if m.remaining <= left {
            makers.remove(0);
            index.remove(&m.id);
            events.push(Event::Fill { taker_id: taker, maker_id: m.id, price: p, qty: m.remaining, ts });
            left = left - m.remaining;
            proof {
                assert(makers@ =~= cur.drop_first());
                assert(makers@ =~= q0.skip(d + 1));
                assert(q0[d] == m);
                assert(q0.take(d + 1) =~= q0.take(d).push(m));
                assert(ids_of(q0.take(d + 1)) =~= ids_of(q0.take(d)).insert(m.id)) by {
                    assert forall|id: u64| ids_of(q0.take(d + 1)).contains(id) == ids_of(q0.take(d)).insert(m.id).contains(id) by {
                        if has_id(q0.take(d + 1), id) {
                            let i = choose|i: int| 0 <= i < q0.take(d + 1).len() && (#[trigger] q0.take(d + 1)[i]).id == id;
                            if i < d {
                                assert(q0.take(d)[i] == q0.take(d + 1)[i]);
                            }
                        }
                        if has_id(q0.take(d), id) {
                            let i = choose|i: int| 0 <= i < q0.take(d).len() && (#[trigger] q0.take(d)[i]).id == id;
                            assert(q0.take(d + 1)[i] == q0.take(d)[i]);
                        }
                        if id == m.id {
                            assert(q0.take(d + 1)[d] == m);
                        }
                    }
                }
                assert(index@ =~= ix0.remove_keys(ids_of(q0.take(d + 1))));
                assert(ev0 + w0.2 =~= events@ + walk(taker, side, limit, left, makers@, ts).2);
            }
        } else {
            let upd = Resting { remaining: m.remaining - left, ..m };
            makers.set(0, upd);
            events.push(Event::Fill { taker_id: taker, maker_id: m.id, price: p, qty: left, ts });
            left = 0;
            proof {
                assert(ev0 + w0.2 =~= events@ + walk(taker, side, limit, left, makers@, ts).2);
            }
        }
    }
    proof {
        assert(events@ + Seq::<Event>::empty() =~= events@);
    }
    left
}

pub(crate) fn better_exec(side: Side, a: u64, b: u64) -> (r: bool)
    ensures
        r == better(side, a, b),
{
    match side {
        Side::BUY => a > b,
        Side::SELL => a < b,
    }
}

/// Puts `r` into the queue of `side` behind every entry whose price is as
/// good as or better than its own, and records it in the index.
pub(crate) fn rest_in(
    q: &mut Vec<Resting>,
    index: &mut HashMap<u64, (Side, u64)>,
    side: Side,
    r: Resting,
)
    ensures
        final(q)@ == old(q)@.insert(rest_pos(side, old(q)@, price_of(r)), r),
        final(index)@ == old(index)@.insert(r.id, (side, price_of(r))),
{
    let p = price_exec(&r);
    let mut k: usize = q.len();
    proof {
        assert(q@.take(q@.len() as int) =~= q@);
    }
    while k > 0 && better_exec(side, p, price_exec(&q[k - 1]))
        invariant
            k <= q@.len(),
            rest_pos(side, q@, p) == rest_pos(side, q@.take(k as int), p),
        decreases k,
    {
        proof {
            assert(q@.take(k as int).drop_last() =~= q@.take(k - 1));
        }
        k = k - 1;
    }
    q.insert(k, r);
    index.insert(r.id, (side, p));
}

impl Book {
    /// Runs a limit order that already has its id: it trades with the
    /// opposite side from the best price toward its limit, and whatever is
    /// left rests at the limit. An order without a price is rejected.
    pub fn execute_limit_order(&mut self, o: &Order, ts: u64) -> (r: SubmitResult)
        requires
            old(self)@.wf(),
            o.quantity > 0,
            o.id < old(self).next_order_id,
            !old(self)@.index.contains_key(o.id),
        ensures
            final(self)@.wf(),
            final(self).next_order_id == old(self).next_order_id,
            o.price is None ==> final(self)@ == old(self)@ && r.events@ == seq![
                done(o.id, DoneReason::Rejected, ts),
            ],
            o.price is Some ==> ({
                let out = limit_outcome(old(self)@, o.id, o.side, o.price->Some_0, o.quantity, ts);
                &&& final(self).bids@ == out.0
                &&& final(self).asks@ == out.1
                &&& r.events@ == out.2
            }),
    {
        let p = match o.price {
            Some(p) => p,
            None => {
                return SubmitResult { events: vec![Event::Done { id: o.id, reason: DoneReason::Rejected, ts }] };
            },
        };
        let ghost b = self@;
        let ghost makers = b.queue(o.side.opposite());
        let ghost w = walk(o.id, o.side, p, o.quantity, makers, ts);
        let mut events: Vec<Event> = Vec::new();
        let left = match o.side {
            Side::BUY => fill_against(&mut self.asks, &mut self.id_index, o.id, Side::BUY, p, o.quantity, ts, &mut events),
            Side::SELL => fill_against(&mut self.bids, &mut self.id_index, o.id, Side::SELL, p, o.quantity, ts, &mut events),
        };
        proof {
            lemma_walk_shape(o.id, o.side, p, o.quantity, makers, ts);
            lemma_walk_wf(b, o.id, o.side, p, o.quantity, ts, b.next_id);
            assert(self@ == from_sides(o.side, b.queue(o.side), w.0, b.index.remove_keys(removed_ids(makers, w.0)), b.next_id));
        }
        if left > 0 {
            let r = Resting { id: o.id, price: Some(p), quantity: o.quantity, ts, remaining: left, active: true };
            let ghost v = self@;
            proof {
                lemma_rest_wf(v, o.side, r);
            }
            match o.side {
                Side::BUY => rest_in(&mut self.bids, &mut self.id_index, Side::BUY, r),
                Side::SELL => rest_in(&mut self.asks, &mut self.id_index, Side::SELL, r),
            }
            events.push(Event::Done { id: o.id, reason: DoneReason::Rested, ts });
        } else {
            events.push(Event::Done { id: o.id, reason: DoneReason::Filled, ts });
        }
        SubmitResult { events }
    }

    /// Trades a market BUY with the best ask level only. Returns the
    /// quantity left (all of it when there are no asks).
    fn execute_market_buy(&mut self, order_id: u64, quantity: u64, ts: u64, events: &mut Vec<Event>) -> (left: u64)
        requires
            old(self)@.wf(),
        ensures
            old(self).asks@.len() == 0 ==> final(self)@ == old(self)@ && left == quantity
                && final(events)@ == old(events)@,
            old(self).asks@.len() > 0 ==> ({
                let w = walk(order_id, Side::BUY, price_of(old(self).asks@[0]), quantity, old(self).asks@, ts);
                &&& final(self).asks@ == w.0
                &&& left == w.1
                &&& final(events)@ == old(events)@ + w.2
                &&& final(self).id_index@ == old(self).id_index@.remove_keys(removed_ids(old(self).asks@, w.0))
            }),
            final(self).bids@ == old(self).bids@,
            final(self).next_order_id == old(self).next_order_id,
    {
        if self.asks.len() == 0 {
            return quantity;
        }
        let best = price_exec(&self.asks[0]);
        fill_against(&mut self.asks, &mut self.id_index, order_id, Side::BUY, best, quantity, ts, events)
    }

    /// Trades a market SELL with the best bid level only. Returns the
    /// quantity left (all of it when there are no bids).
    fn execute_market_sell(&mut self, order_id: u64, quantity: u64, ts: u64, events: &mut Vec<Event>) -> (left: u64)
        requires
            old(self)@.wf(),
        ensures
            old(self).bids@.len() == 0 ==> final(self)@ == old(self)@ && left == quantity
                && final(events)@ == old(events)@,
            old(self).bids@.len() > 0 ==> ({
                let w = walk(order_id, Side::SELL, price_of(old(self).bids@[0]), quantity, old(self).bids@, ts);
                &&& final(self).bids@ == w.0
                &&& left == w.1
                &&& final(events)@ == old(events)@ + w.2
                &&& final(self).id_index@ == old(self).id_index@.remove_keys(removed_ids(old(self).bids@, w.0))
            }),
            final(self).asks@ == old(self).asks@,
            final(self).next_order_id == old(self).next_order_id,
    {
        if self.bids.len() == 0 {
            return quantity;
        }
        let best = price_exec(&self.bids[0]);
        fill_against(&mut self.bids, &mut self.id_index, order_id, Side::SELL, best, quantity, ts, events)
    }

    /// Appends the terminal event of a market order: `Filled` when it traded
    /// and nothing is left, `Rejected` otherwise.
    fn finalize_market_order(&self, order_id: u64, ordered_qty: u64, remaining_qty: u64, ts: u64, events: &mut Vec<Event>)
        ensures
            final(events)@ == old(events)@.push(
                done(order_id, if old(events)@.len() > 0 && remaining_qty == 0 {
                    DoneReason::Filled
                } else {
                    DoneReason::Rejected
                }, ts),
            ),
    {
        if events.len() > 0 && remaining_qty == 0 {
            events.push(Event::Done { id: order_id, reason: DoneReason::Filled, ts });
        } else {
            events.push(Event::Done { id: order_id, reason: DoneReason::Rejected, ts });
        }
    }

    /// Runs a market order that already has its id: it trades with the best
    /// opposite level only. It ends `Filled` when nothing is left and
    /// `Rejected` otherwise, after whatever fills it made.
    pub fn execute_market_order(&mut self, o: &Order, ts: u64) -> (r: SubmitResult)
        requires
            old(self)@.wf(),
            o.quantity > 0,
        ensures
            final(self)@.wf(),
            final(self).next_order_id == old(self).next_order_id,
            ({
                let out = market_outcome(old(self)@, o.id, o.side, o.quantity, ts);
                &&& final(self).bids@ == out.0
                &&& final(self).asks@ == out.1
                &&& r.events@ == out.2
            }),
    {
        let ghost b = self@;
        let ghost makers = b.queue(o.side.opposite());
        let mut events: Vec<Event> = Vec::new();
        let left = match o.side {
            Side::BUY => self.execute_market_buy(o.id, o.quantity, ts, &mut events),
            Side::SELL => self.execute_market_sell(o.id, o.quantity, ts, &mut events),
        };
        proof {
            if makers.len() > 0 {
                let w = walk(o.id, o.side, price_of(makers[0]), o.quantity, makers, ts);
                lemma_walk_wf(b, o.id, o.side, price_of(makers[0]), o.quantity, ts, b.next_id);
                assert(self@ == from_sides(o.side, b.queue(o.side), w.0, b.index.remove_keys(removed_ids(makers, w.0)), b.next_id));
                assert(w.2.len() > 0);
                assert(events@ =~= w.2);
            } else {
                assert(events@.len() == 0);
            }
        }
        self.finalize_market_order(o.id, o.quantity, left, ts, &mut events);
        SubmitResult { events }
    }

    /// Runs an order that already has its id: a zero quantity is rejected
    /// with nothing changed, an order without a price is a market order, one
    /// with a price a limit order.
    pub fn execute_order(&mut self, o: &Order, ts: u64) -> (r: SubmitResult)
        requires
            old(self)@.wf(),
            o.id < old(self).next_order_id,
            !old(self)@.index.contains_key(o.id),
        ensures
            final(self)@.wf(),
            final(self).next_order_id == old(self).next_order_id,
            ({
                let out = order_outcome(old(self)@, *o, ts);
                &&& final(self).bids@ == out.0
                &&& final(self).asks@ == out.1
                &&& r.events@ == out.2
            }),
    {
        if o.quantity == 0 {
            SubmitResult { events: vec![Event::Done { id: o.id, reason: DoneReason::Rejected, ts }] }
        } else if o.price.is_none() {
            self.execute_market_order(o, ts)
        } else {
            self.execute_limit_order(o, ts)
        }
    }

    /// Submits a request at time `ts`. A zero quantity is rejected under id 0
    /// with nothing changed; otherwise the order gets the next id and runs.
    /// Returns the id and the events.
    pub fn submit_at(&mut self, req: &OrderRequest, ts: u64) -> (r: (u64, SubmitResult))
        requires
            old(self)@.wf(),
            old(self).next_order_id < u64::MAX,
        ensures
            final(self)@.wf(),
            req.quantity == 0 ==> r.0 == 0 && final(self)@ == old(self)@ && r.1.events@ == seq![
                done(0, DoneReason::Rejected, ts),
            ],
            req.quantity > 0 ==> ({
                let o = Order { id: old(self).next_order_id, price: req.price, quantity: req.quantity, side: req.side };
                let out = order_outcome(old(self)@, o, ts);
                &&& r.0 == old(self).next_order_id
                &&& final(self).next_order_id == old(self).next_order_id + 1
                &&& final(self).bids@ == out.0
                &&& final(self).asks@ == out.1
                &&& r.1.events@ == out.2
            }),
    {
        if req.quantity == 0 {
            return (0, SubmitResult { events: vec![Event::Done { id: 0, reason: DoneReason::Rejected, ts }] });
        }
        let order_id = self.next_order_id;
        self.next_order_id = self.next_order_id + 1;
        let o = Order { id: order_id, price: req.price, quantity: req.quantity, side: req.side };
        let result = self.execute_order(&o, ts);
        (order_id, result)
    }

    /// Submits a request, stamping its events with the clock. A zero
    /// quantity is rejected under id 0 with nothing changed; otherwise the
    /// order gets the next id and runs. Returns the id and the events, which
    /// are those of `submit_at` for some timestamp.
    pub fn submit(&mut self, req: &OrderRequest) -> (r: (u64, SubmitResult))
        requires
            old(self)@.wf(),
            old(self).next_order_id < u64::MAX,
        ensures
            final(self)@.wf(),
            exists|ts: u64|
                {
                    &&& req.quantity == 0 ==> r.0 == 0 && final(self)@ == old(self)@
                        && r.1.events@ == seq![done(0, DoneReason::Rejected, ts)]
                    &&& req.quantity > 0 ==> ({
                        let o = Order {
                            id: old(self).next_order_id,
                            price: req.price,
                            quantity: req.quantity,
                            side: req.side,
                        };
                        let out = order_outcome(old(self)@, o, ts);
                        &&& r.0 == old(self).next_order_id
                        &&& final(self).next_order_id == old(self).next_order_id + 1
                        &&& final(self).bids@ == out.0
                        &&& final(self).asks@ == out.1
                        &&& r.1.events@ == out.2
                    })
                },
    {
        let ts = event_timestamp();
        self.submit_at(req, ts)
    }

    /// Submits a request under an id given by the caller, as replay of a
    /// write-ahead log does; the id allocator moves past it. A zero quantity
    /// is rejected with nothing changed.
    pub fn submit_with_id(&mut self, id: u64, req: &OrderRequest, ts: u64) -> (r: SubmitResult)
        requires
            old(self)@.wf(),
            id < u64::MAX,
            !old(self)@.index.contains_key(id),
        ensures
            final(self)@.wf(),
            req.quantity == 0 ==> final(self)@ == old(self)@ && r.events@ == seq![
                done(id, DoneReason::Rejected, ts),
            ],
            req.quantity > 0 ==> ({
                let o = Order { id, price: req.price, quantity: req.quantity, side: req.side };
                let out = order_outcome(old(self)@, o, ts);
                &&& final(self).next_order_id == if id < old(self).next_order_id {
                    old(self).next_order_id
                } else {
                    (id + 1) as u64
                }
                &&& final(self).bids@ == out.0
                &&& final(self).asks@ == out.1
                &&& r.events@ == out.2
            }),
    {
        if req.quantity == 0 {
            return SubmitResult { events: vec![Event::Done { id, reason: DoneReason::Rejected, ts }] };
        }
        if id >= self.next_order_id {
            self.next_order_id = id + 1;
        }
        let o = Order { id, price: req.price, quantity: req.quantity, side: req.side };
        self.execute_order(&o, ts)
    }

    /// An empty book whose first order will get id 1.
    pub fn new() -> (b: Book)
        ensures
            b@.wf(),
            b.bids@.len() == 0,
            b.asks@.len() == 0,
            b.id_index@ == Map::<u64, (Side, u64)>::empty(),
            b.next_order_id == 1,
    {
        Book { bids: Vec::new(), asks: Vec::new(), id_index: HashMap::new(), next_order_id: 1 }
    }

    /// The best bid level: its price and the sum of `remaining` over its
    /// active entries, or `None` when there are no bids.
    pub fn best_bid(&self) -> (r: Option<(u64, u64)>)
        requires
            self@.wf(),
        ensures
            r == best_level(self.bids@),
    {
        best_of(&self.bids)
    }

    /// The best ask level: its price and the sum of `remaining` over its
    /// active entries, or `None` when there are no asks.
    pub fn best_ask(&self) -> (r: Option<(u64, u64)>)
        requires
            self@.wf(),
        ensures
            r == best_level(self.asks@),
    {
        best_of(&self.asks)
    }

    /// Best ask price minus best bid price, or `None` when a side is empty.
    /// It is always positive: the book is never crossed.
    pub fn spread(&self) -> (r: Option<u64>)
        requires
            self@.wf(),
        ensures
            r == (if self.bids@.len() > 0 && self.asks@.len() > 0 {
                Some((price_of(self.asks@[0]) - price_of(self.bids@[0])) as u64)
            } else {
                None
            }),
            r matches Some(s) ==> s > 0,
    {
        let bid = match self.best_bid() {
            Some((p, _)) => p,
            None => return None,
        };
        let ask = match self.best_ask() {
            Some((p, _)) => p,
            None => return None,
        };
        Some(ask - bid)
    }

    /// Cancels the resting order with `o.id`. Returns `None`, with nothing
    /// changed, when no such order rests (unknown, filled or already
    /// cancelled); otherwise removes it and returns its `Cancelled` event.
    pub fn cancel_limit_order(&mut self, o: Order, ts: u64) -> (r: Option<SubmitResult>)
        requires
            old(self)@.wf(),
        ensures
            final(self)@.wf(),
            final(self)@ == cancel_view(old(self)@, o.id),
            r is Some <==> old(self)@.index.contains_key(o.id),
            r matches Some(res) ==> res.events@ == seq![done(o.id, DoneReason::Cancelled, ts)],
    {
        proof {
            lemma_cancel_wf(self@, o.id);
        }
        let side = match self.id_index.get(&o.id) {
            None => return None,
            Some(entry) => entry.0,
        };
        self.id_index.remove(&o.id);
        match side {
            Side::BUY => remove_id(&mut self.bids, o.id),
            Side::SELL => remove_id(&mut self.asks, o.id),
        }
        Some(SubmitResult { events: vec![Event::Done { id: o.id, reason: DoneReason::Cancelled, ts }] })
    }
}

/// The best level of a queue in priority order.
fn best_of(q: &Vec<Resting>) -> (r: Option<(u64, u64)>)
    ensures
        r == best_level(q@),
{
    if q.len() == 0 {
        return None;
    }
    let p = price_exec(&q[0]);
    let mut total: u64 = 0;
    let mut i: usize = 0;
    while i < q.len()
        invariant
            i <= q@.len(),
            q@.len() > 0,
            p == price_of(q@[0]),
            total == cap(level_size(q@.take(i as int), p)),
        decreases q@.len() - i,
    {
        proof {
            assert(q@.take(i + 1).drop_last() =~= q@.take(i as int));
        }
        if q[i].active && price_exec(&q[i]) == p {
            total = total.saturating_add(q[i].remaining);
        }
        i = i + 1;
    }
    proof {
        assert(q@.take(q@.len() as int) =~= q@);
    }
    Some((p, total))
}

/// Removes the entry with id `id` from a queue that holds it once.
fn remove_id(q: &mut Vec<Resting>, id: u64)
    requires
        has_id(old(q)@, id),
        forall|i: int, j: int|
            0 <= i < j < old(q)@.len() ==> (#[trigger] old(q)@[i]).id != (#[trigger] old(q)@[j]).id,
    ensures
        final(q)@ == old(q)@.remove(pos_of(old(q)@, id)),
{
    let n = q.len();
    let mut i: usize = 0;
    while q[i].id != id
        invariant
            n == q@.len(),
            0 <= i < q@.len(),
            has_id(q@, id),
            forall|j: int| 0 <= j < i ==> (#[trigger] q@[j]).id != id,
        decreases q@.len() - i,
    {
        i = i + 1;
        proof {
            if i >= q@.len() {
                let k = choose|k: int| 0 <= k < q@.len() && (#[trigger] q@[k]).id == id;
                assert(q@[k].id == id);
            }
        }
    }
    proof {
        let k = pos_of(q@, id);
        assert(q@[k].id == id);
        if k != i {
            assert(q@[k].id != q@[i as int].id);
        }
    }
    q.remove(i);
}

/// The number of price levels in a queue in priority order.
fn count_levels(q: &Vec<Resting>) -> (n: usize)
    ensures
        n == level_count(q@),
{
    let mut n: usize = 0;
    let mut i: usize = 0;
    while i < q.len()
        invariant
            i <= q@.len(),
            n == level_count(q@.take(i as int)),
            n <= i,
        decreases q@.len() - i,
    {
        proof {
            assert(q@.take(i + 1).drop_last() =~= q@.take(i as int));
        }
        if i == 0 || price_exec(&q[i - 1]) != price_exec(&q[i]) {
            n = n + 1;
        }
        i = i + 1;
    }
    proof {
        assert(q@.take(q@.len() as int) =~= q@);
    }
    n
}

/// The number of bid levels, of ask levels, and of resting orders on both
/// sides together.
pub fn count_resting_orders(book: &Book) -> (r: (usize, usize, usize))
    requires
        book@.wf(),
    ensures
        r.0 == level_count(book.bids@),
        r.1 == level_count(book.asks@),
        r.2 == book.bids@.len() + book.asks@.len(),
{
    proof {
        crate::engine::laws::lemma_index_counts_resting(book@);
    }
    let bid_levels = count_levels(&book.bids);
    let ask_levels = count_levels(&book.asks);
    (bid_levels, ask_levels, book.id_index.len())
}

} // verus!
