//! A simple market maker that quotes around an outside venue's mid price.
use vstd::prelude::*;

use crate::engine::book::Book;
use crate::engine::model::{best_level, cancel_view, BookView};
use crate::engine::types::{Order, OrderRequest, Side};

verus! {

/// Quotes on the engine's book around an outside mid price, and the
/// inventory that simulated fills have built up.
pub struct MarketMaker {
    pub book: Book,
    /// The live quotes, in the order they were posted.
    pub active_quotes: Vec<Quote>,
    /// Positive when long, negative when short.
    pub inventory: i64,
    pub next_quote_id: u64,
}

/// One quote: its side, its level (1 is nearest the mid) and its order id.
#[derive(Debug, Clone, Copy, PartialEq, Eq, Structural)]
pub struct Quote {
    pub side: Side,
    pub level: u64,
    pub order_id: u64,
}

/// What `update_quotes` did, in order.
#[derive(Debug, Clone, Copy, PartialEq, Eq, Structural)]
pub enum QuoteAction {
    Cancelled { quote: Quote },
    Posted { quote: Quote, price: i64, size: u64 },
}

/// A fill simulated by `check_crosses`: `bought` when the outside ask
/// crossed our bid, otherwise we sold into the outside bid.
#[derive(Debug, Clone, Copy, PartialEq, Eq, Structural)]
pub struct SimulatedFill {
    pub bought: bool,
    pub quantity: u64,
    pub price: u64,
}

/// The price step between quote levels, in ticks.
pub const LEVEL_STEP: i64 = 100_000;

/// The most a simulated fill takes, in lots.
pub const MAX_SIMULATED_FILL: u64 = 10_000_000;

/// Integer division rounding toward zero, as Rust's `/` does.
pub open spec fn tdiv(a: int, b: int) -> int {
    if a >= 0 {
        a / b
    } else {
        -((-a) / b)
    }
}

pub open spec fn fits_i64(x: int) -> bool {
    i64::MIN <= x <= i64::MAX
}

/// Our (bid, ask) quote around the outside mid `(bid + ask) / 2`: the
/// spread is `spread_bps` of the mid, widened by 1% per unit of absolute
/// inventory, and split evenly around the mid; each step in `i64`
/// arithmetic. `None` when a step leaves the range of `i64`, or when a
/// quote of some level (see `LEVEL_STEP`) would have a negative price.
pub open spec fn quote_prices(bid: int, ask: int, spread_bps: int, inventory: int) -> Option<(int, int)> {
    let sum = bid + ask;
    let mid = tdiv(sum, 2);
    let prod = mid * spread_bps;
    let spread = tdiv(prod, 10000);
    let abs_inv = if inventory < 0 {
        -inventory
    } else {
        inventory
    };
    let risk = abs_inv * spread;
    let adjusted = spread + tdiv(risk, 100);
    let half = tdiv(adjusted, 2);
    if fits_i64(sum) && fits_i64(spread_bps) && fits_i64(prod) && fits_i64(abs_inv) && fits_i64(risk)
        && fits_i64(adjusted) && 2 * LEVEL_STEP <= mid - half && mid + half + 2 * LEVEL_STEP
        <= i64::MAX {
        Some((mid - half, mid + half))
    } else {
        None
    }
}

fn tdiv_exec(a: i64, b: i64) -> (r: i64)
    requires
        b >= 2,
    ensures
        r == tdiv(a as int, b as int),
{
    let neg = a < 0;
    let mag: u64 = if neg {
        (-(a as i128)) as u64
    } else {
        a as u64
    };
    let q = mag / (b as u64);
    proof {
        assert(q <= mag);
    }
    if neg {
        -(q as i128) as i64
    } else {
        q as i64
    }
}

fn mul_checked(a: i64, b: i64) -> (r: Option<i64>)
    ensures
        fits_i64(a * b) ==> r == Some((a * b) as i64),
        !fits_i64(a * b) ==> r is None,
{
    proof {
        assert(-0x4000_0000_0000_0000_0000_0000_0000_0000 <= (a as int) * (b as int) <= 0x4000_0000_0000_0000_0000_0000_0000_0000)
            by (nonlinear_arith)
            requires
                -0x8000_0000_0000_0000 <= a <= 0x7fff_ffff_ffff_ffff,
                -0x8000_0000_0000_0000 <= b <= 0x7fff_ffff_ffff_ffff,
        ;
    }
    let p = (a as i128) * (b as i128);
    if p < i64::MIN as i128 || p > i64::MAX as i128 {
        None
    } else {
        Some(p as i64)
    }
}

/// Our (bid, ask) quote prices (see `quote_prices`).
pub fn compute_quotes(bid: i64, ask: i64, spread_bps: u64, inventory: i64) -> (r: Option<(i64, i64)>)
    ensures
        match quote_prices(bid as int, ask as int, spread_bps as int, inventory as int) {
            Some((b, a)) => r == Some((b as i64, a as i64)),
            None => r is None,
        },
{
    let sum = bid as i128 + ask as i128;
    if sum < i64::MIN as i128 || sum > i64::MAX as i128 || spread_bps > i64::MAX as u64 {
        return None;
    }
    let mid = tdiv_exec(sum as i64, 2);
    let spread = match mul_checked(mid, spread_bps as i64) {
        Some(p) => tdiv_exec(p, 10000),
        None => return None,
    };
    if inventory == i64::MIN {
        return None;
    }
    let abs_inv = if inventory < 0 {
        -inventory
    } else {
        inventory
    };
    let risk = match mul_checked(abs_inv, spread) {
        Some(p) => tdiv_exec(p, 100),
        None => return None,
    };
    let adjusted = spread as i128 + risk as i128;
    if adjusted < i64::MIN as i128 || adjusted > i64::MAX as i128 {
        return None;
    }
    let half = tdiv_exec(adjusted as i64, 2);
    let b = mid as i128 - half as i128;
    let a = mid as i128 + half as i128;
    if b < 2 * LEVEL_STEP as i128 || a + 2 * LEVEL_STEP as i128 > i64::MAX as i128 {
        return None;
    }
    Some((b as i64, a as i64))
}

/// The size of a quote at `level`: 100, 50 and 25 units of 10^6 lots.
pub open spec fn quote_size(level: int) -> u64 {
    if level == 1 {
        100_000_000
    } else if level == 2 {
        50_000_000
    } else {
        25_000_000
    }
}

fn quote_size_exec(level: u64) -> (r: u64)
    ensures
        r == quote_size(level as int),
{
    if level == 1 {
        100_000_000
    } else if level == 2 {
        50_000_000
    } else {
        25_000_000
    }
}

/// The book after cancelling `quotes` in order, and a `Cancelled` action
/// for each quote that was still resting.
pub open spec fn cancel_all(b: BookView, quotes: Seq<Quote>) -> (BookView, Seq<QuoteAction>)
    decreases quotes.len(),
{
    if quotes.len() == 0 {
        (b, Seq::empty())
    } else {
        let r = cancel_all(b, quotes.drop_last());
        let q = quotes.last();
        (
            cancel_view(r.0, q.order_id),
            if r.0.index.contains_key(q.order_id) {
                r.1.push(QuoteAction::Cancelled { quote: q })
            } else {
                r.1
            },
        )
    }
}

/// The `k`-th quote posted around (`bid`, `ask`), for `k` from 0 to 5:
/// levels 1 to 3, the bid before the ask at each, each level one
/// `LEVEL_STEP` further from the mid, with consecutive ids from `first_id`.
pub open spec fn planned(k: int, bid: int, ask: int, first_id: u64) -> QuoteAction {
    let level = k / 2 + 1;
    let side = if k % 2 == 0 {
        Side::BUY
    } else {
        Side::SELL
    };
    let price = if k % 2 == 0 {
        bid - (level - 1) * LEVEL_STEP
    } else {
        ask + (level - 1) * LEVEL_STEP
    };
    QuoteAction::Posted {
        quote: Quote { side, level: level as u64, order_id: (first_id + k) as u64 },
        price: price as i64,
        size: quote_size(level),
    }
}

/// How many of the six quotes can get an id from `first_id` on.
pub open spec fn post_count(first_id: u64) -> int {
    if u64::MAX - first_id >= 6 {
        6
    } else {
        u64::MAX - first_id
    }
}

/// The quote an action posted or cancelled.
pub open spec fn quote_of(a: QuoteAction) -> Quote {
    match a {
        QuoteAction::Cancelled { quote } => quote,
        QuoteAction::Posted { quote, .. } => quote,
    }
}

impl MarketMaker {
    /// A market maker on `book` with no quotes and no inventory.
    pub fn new(book: Book) -> (r: MarketMaker)
        ensures
            r.book == book,
            r.active_quotes@.len() == 0,
            r.inventory == 0,
            r.next_quote_id == 1000,
    {
        MarketMaker { book, active_quotes: Vec::new(), inventory: 0, next_quote_id: 1000 }
    }

    /// Replaces the quotes around the outside mid. With both outside prices
    /// and quote prices (see `quote_prices`), every live quote is
    /// cancelled and up to six new ones are posted (see `planned`; fewer
    /// only when order ids run out). Otherwise nothing changes. Returns
    /// what was done, in order.
    pub fn update_quotes(
        &mut self,
        ext_bid: Option<(i64, u64)>,
        ext_ask: Option<(i64, u64)>,
        spread_bps: u64,
    ) -> (actions: Vec<QuoteAction>)
        requires
            old(self).book@.wf(),
        ensures
            final(self).book@.wf(),
            final(self).inventory == old(self).inventory,
            match (ext_bid, ext_ask) {
                (Some(eb), Some(ea)) => match quote_prices(
                    eb.0 as int,
                    ea.0 as int,
                    spread_bps as int,
                    old(self).inventory as int,
                ) {
                    Some((qb, qa)) => {
                        let c = cancel_all(old(self).book@, old(self).active_quotes@);
                        let first = c.0.next_id;
                        let posts = Seq::new(
                            post_count(first) as nat,
                            |k: int| planned(k, qb, qa, first),
                        );
                        &&& actions@ == c.1 + posts
                        &&& final(self).active_quotes@ == posts.map_values(|a: QuoteAction| quote_of(a))
                        &&& final(self).book.next_order_id == first + post_count(first)
                    },
                    None => final(self).book@ == old(self).book@ && final(self).active_quotes@
                        == old(self).active_quotes@ && actions@.len() == 0,
                },
                _ => final(self).book@ == old(self).book@ && final(self).active_quotes@
                    == old(self).active_quotes@ && actions@.len() == 0,
            },
    {
        let mut actions: Vec<QuoteAction> = Vec::new();
        let (eb, ea) = match (ext_bid, ext_ask) {
            (Some(b), Some(a)) => (b.0, a.0),
            _ => return actions,
        };
        let (qb, qa) = match compute_quotes(eb, ea, spread_bps, self.inventory) {
            Some(q) => q,
            None => return actions,
        };
        let ghost b0 = self.book@;
        let ghost quotes = self.active_quotes@;
        let mut i: usize = 0;
        proof {
            assert(quotes.take(0) =~= Seq::<Quote>::empty());
        }
        while i < self.active_quotes.len()
            invariant
                i <= quotes.len(),
                quotes == self.active_quotes@,
                self.inventory == old(self).inventory,
                self.book@.wf(),
                (self.book@, actions@) == cancel_all(b0, quotes.take(i as int)),
            decreases quotes.len() - i,
        {
            let q = self.active_quotes[i];
            let o = Order { id: q.order_id, price: None, quantity: 0, side: q.side };
            let found = self.book.cancel_limit_order(o, 0);
            if found.is_some() {
                actions.push(QuoteAction::Cancelled { quote: q });
            }
            proof {
                assert(quotes.take(i + 1).drop_last() =~= quotes.take(i as int));
            }
            i = i + 1;
        }
        proof {
            assert(quotes.take(quotes.len() as int) =~= quotes);
        }
        let ghost cancels = actions@;
        let first = self.book.next_order_id;
        let mut posted: Vec<Quote> = Vec::new();
        let mut k: u64 = 0;
        while k < 6 && self.book.next_order_id < u64::MAX
            invariant
                k <= 6,
                self.inventory == old(self).inventory,
                self.book@.wf(),
                self.book.next_order_id == first + k,
                2 * LEVEL_STEP <= qb,
                qa + 2 * LEVEL_STEP <= i64::MAX,
                actions@ == cancels + Seq::new(k as nat, |j: int| planned(j, qb as int, qa as int, first)),
                posted@ == Seq::new(k as nat, |j: int| planned(j, qb as int, qa as int, first)).map_values(
                    |a: QuoteAction| quote_of(a),
                ),
            decreases 6 - k,
        {
            let level = k / 2 + 1;
            let (side, price) = if k % 2 == 0 {
                (Side::BUY, qb - ((level - 1) as i64) * LEVEL_STEP)
            } else {
                (Side::SELL, qa + ((level - 1) as i64) * LEVEL_STEP)
            };
            let size = quote_size_exec(level);
            let req = OrderRequest { side, price: Some(price as u64), quantity: size };
            let (order_id, _) = self.book.submit(&req);
            let quote = Quote { side, level, order_id };
            let ghost before = actions@;
            actions.push(QuoteAction::Posted { quote, price, size });
            posted.push(quote);
            proof {
                let f = |j: int| planned(j, qb as int, qa as int, first);
                assert(Seq::new((k + 1) as nat, f) =~= Seq::new(k as nat, f).push(f(k as int)));
                assert(actions@ =~= cancels + Seq::new((k + 1) as nat, f));
                assert(Seq::new((k + 1) as nat, f).map_values(|a: QuoteAction| quote_of(a)) =~= Seq::new(
                    k as nat,
                    f,
                ).map_values(|a: QuoteAction| quote_of(a)).push(quote));
            }
            k = k + 1;
        }
        self.active_quotes = posted;
        actions
    }

    /// Simulates fills where the outside market crosses our quotes: an
    /// outside ask at or below our best bid buys up to `MAX_SIMULATED_FILL`
    /// of our best bid level, an outside bid at or above our best ask sells
    /// as much of our best ask level; the inventory moves by each fill
    /// (saturating). The book does not change.
    pub fn check_crosses(&mut self, ext_bid: Option<(i64, u64)>, ext_ask: Option<(i64, u64)>) -> (fills: Vec<
        SimulatedFill,
    >)
        requires
            old(self).book@.wf(),
        ensures
            final(self).book == old(self).book,
            final(self).active_quotes == old(self).active_quotes,
            ({
                let buy = match (best_level(old(self).book.bids@), ext_ask) {
                    (Some((p, q)), Some((a, _))) => if a as int <= p as int {
                        Some(
                            SimulatedFill {
                                bought: true,
                                quantity: if q < MAX_SIMULATED_FILL {
                                    q
                                } else {
                                    MAX_SIMULATED_FILL
                                },
                                price: p,
                            },
                        )
                    } else {
                        None
                    },
                    _ => None,
                };
                let sell = match (best_level(old(self).book.asks@), ext_bid) {
                    (Some((p, q)), Some((b, _))) => if b as int >= p as int {
                        Some(
                            SimulatedFill {
                                bought: false,
                                quantity: if q < MAX_SIMULATED_FILL {
                                    q
                                } else {
                                    MAX_SIMULATED_FILL
                                },
                                price: p,
                            },
                        )
                    } else {
                        None
                    },
                    _ => None,
                };
                let inv1 = match buy {
                    Some(f) => clamp_inventory(old(self).inventory + f.quantity),
                    None => old(self).inventory as int,
                };
                let inv2 = match sell {
                    Some(f) => clamp_inventory(inv1 - f.quantity),
                    None => inv1,
                };
                &&& fills@ == match (buy, sell) {
                    (Some(x), Some(y)) => seq![x, y],
                    (Some(x), None) => seq![x],
                    (None, Some(y)) => seq![y],
                    (None, None) => Seq::<SimulatedFill>::empty(),
                }
                &&& final(self).inventory == inv2
            }),
    {
        let mut fills: Vec<SimulatedFill> = Vec::new();
        let our_bid = self.book.best_bid();
        let our_ask = self.book.best_ask();
        if let (Some((p, q)), Some((a, _))) = (our_bid, ext_ask) {
            if (a as i128) <= (p as i128) {
                let qty = if q < MAX_SIMULATED_FILL {
                    q
                } else {
                    MAX_SIMULATED_FILL
                };
                self.inventory = clamp_inventory_exec(self.inventory as i128 + qty as i128);
                fills.push(SimulatedFill { bought: true, quantity: qty, price: p });
            }
        }
        if let (Some((p, q)), Some((b, _))) = (our_ask, ext_bid) {
            if (b as i128) >= (p as i128) {
                let qty = if q < MAX_SIMULATED_FILL {
                    q
                } else {
                    MAX_SIMULATED_FILL
                };
                self.inventory = clamp_inventory_exec(self.inventory as i128 - qty as i128);
                fills.push(SimulatedFill { bought: false, quantity: qty, price: p });
            }
        }
        fills
    }
}

/// `x` clamped into the range of `i64`.
pub open spec fn clamp_inventory(x: int) -> int {
    if x < i64::MIN {
        i64::MIN as int
    } else if x > i64::MAX {
        i64::MAX as int
    } else {
        x
    }
}

fn clamp_inventory_exec(x: i128) -> (r: i64)
    ensures
        r == clamp_inventory(x as int),
{
    if x < i64::MIN as i128 {
        i64::MIN
    } else if x > i64::MAX as i128 {
        i64::MAX
    } else {
        x as i64
    }
}

} // verus!
