use std::collections::BTreeMap;
use vstd::prelude::*;
use vstd::std_specs::cmp::OrdSpec;
use vstd::std_specs::iter::IteratorSpec;

use crate::engine::book::{price_exec, Book};
use crate::engine::model::{best_level, price_of};
use crate::engine::types::Resting;
use crate::market_data::external_book::{is_highest, is_lowest, ExternalBook};

verus! {

broadcast use vstd::std_specs::btree::group_btree_axioms, vstd::laws_cmp::group_laws_cmp;

/// A read-only view that combines the engine's book with an outside
/// venue's book, in the outside book's integer ticks.
pub struct UnifiedBook {
    pub internal: Book,
    pub external: ExternalBook,
    pub price_scale: i64,
}

/// An engine level (price, size) in the outside book's signed ticks.
pub open spec fn as_ticks(l: Option<(u64, u64)>) -> Option<(i64, u64)> {
    match l {
        None => None,
        Some((p, q)) => Some((p as i64, q)),
    }
}

/// The better of two bids: the higher price; the outside one on a tie.
pub open spec fn pick_bid(ext: Option<(i64, u64)>, own: Option<(i64, u64)>) -> Option<(i64, u64)> {
    match (ext, own) {
        (None, x) => x,
        (x, None) => x,
        (Some(e), Some(i)) => Some(if i.0 > e.0 { i } else { e }),
    }
}

/// The better of two asks: the lower price; the outside one on a tie.
pub open spec fn pick_ask(ext: Option<(i64, u64)>, own: Option<(i64, u64)>) -> Option<(i64, u64)> {
    match (ext, own) {
        (None, x) => x,
        (x, None) => x,
        (Some(e), Some(i)) => Some(if i.0 < e.0 { i } else { e }),
    }
}

fn ticks_of(l: Option<(u64, u64)>) -> (r: Option<(i64, u64)>)
    ensures
        r == as_ticks(l),
{
    match l {
        None => None,
        Some((p, q)) => Some((p as i64, q)),
    }
}

fn pick_bid_exec(ext: Option<(i64, u64)>, own: Option<(i64, u64)>) -> (r: Option<(i64, u64)>)
    ensures
        r == pick_bid(ext, own),
{
    match (ext, own) {
        (None, x) => x,
        (x, None) => x,
        (Some(e), Some(i)) => Some(if i.0 > e.0 { i } else { e }),
    }
}

fn pick_ask_exec(ext: Option<(i64, u64)>, own: Option<(i64, u64)>) -> (r: Option<(i64, u64)>)
    ensures
        r == pick_ask(ext, own),
{
    match (ext, own) {
        (None, x) => x,
        (x, None) => x,
        (Some(e), Some(i)) => Some(if i.0 < e.0 { i } else { e }),
    }
}

impl UnifiedBook {
    /// A combined view of `internal` and `external`.
    pub fn new(internal: Book, external: ExternalBook, price_scale: i64) -> (r: UnifiedBook)
        ensures
            r.internal == internal,
            r.external == external,
            r.price_scale == price_scale,
    {
        UnifiedBook { internal, external, price_scale }
    }

    /// The combined best bid (the higher of the two books') and best ask
    /// (the lower of the two), each with the size of the book it came from.
    pub fn combined_bbo(&self) -> (r: (Option<(i64, u64)>, Option<(i64, u64)>))
        requires
            self.internal@.wf(),
        ensures
            exists|eb: Option<(i64, u64)>, ea: Option<(i64, u64)>|
                {
                    &&& is_highest(self.external.bids@, eb)
                    &&& is_lowest(self.external.asks@, ea)
                    &&& r.0 == pick_bid(eb, as_ticks(best_level(self.internal.bids@)))
                    &&& r.1 == pick_ask(ea, as_ticks(best_level(self.internal.asks@)))
                },
    {
        let (ext_bid, ext_ask) = self.external.bbo();
        let int_bid = ticks_of(self.internal.best_bid());
        let int_ask = ticks_of(self.internal.best_ask());
        (pick_bid_exec(ext_bid, int_bid), pick_ask_exec(ext_ask, int_ask))
    }
}

/// `m` with the remaining quantity of every active entry of `q` added at its
/// price (in signed ticks), sums capped at the largest `u64`.
pub open spec fn merged(m: Map<i64, u64>, q: Seq<Resting>) -> Map<i64, u64>
    decreases q.len(),
{
    if q.len() == 0 {
        m
    } else {
        let m1 = merged(m, q.drop_last());
        let r = q.last();
        let p = price_of(r) as i64;
        if r.active && r.remaining > 0 {
            let cur: u64 = if m1.contains_key(p) {
                m1[p]
            } else {
                0
            };
            m1.insert(p, if cur + r.remaining > u64::MAX { u64::MAX } else { (cur + r.remaining) as u64 })
        } else {
            m1
        }
    }
}

/// `v` holds the entries of `m`, each once, in increasing price order.
pub open spec fn sorted_entries(m: Map<i64, u64>, v: Seq<(i64, u64)>) -> bool {
    &&& forall|i: int| 0 <= i < v.len() ==> m.contains_key((#[trigger] v[i]).0) && m[v[i].0] == v[i].1
    &&& forall|i: int, j: int| 0 <= i < j < v.len() ==> (#[trigger] v[i]).0 < (#[trigger] v[j]).0
    &&& forall|k: i64| #[trigger] m.contains_key(k) ==> exists|i: int| 0 <= i < v.len() && v[i].0 == k
}

/// `r` is the `n` best entries of `m` (all of them when it has fewer), best
/// first: the highest prices when `highest`, the lowest otherwise.
pub open spec fn is_top(m: Map<i64, u64>, n: nat, r: Seq<(i64, u64)>, highest: bool) -> bool {
    let better = |a: i64, b: i64| if highest {
        a > b
    } else {
        a < b
    };
    &&& r.len() == if n < m.dom().len() {
        n
    } else {
        m.dom().len()
    }
    &&& forall|i: int| 0 <= i < r.len() ==> m.contains_key((#[trigger] r[i]).0) && m[r[i].0] == r[i].1
    &&& forall|i: int, j: int| 0 <= i < j < r.len() ==> better((#[trigger] r[i]).0, (#[trigger] r[j]).0)
    &&& forall|k: i64|
        #[trigger] m.contains_key(k) && (forall|i: int| 0 <= i < r.len() ==> r[i].0 != k) ==> forall|
            i: int,
        | 0 <= i < r.len() ==> better(r[i].0, k)
}

fn add_levels(m: &mut BTreeMap<i64, u64>, q: &Vec<Resting>)
    ensures
        final(m)@ == merged(old(m)@, q@),
{
    let mut i: usize = 0;
    proof {
        assert(q@.take(0) =~= Seq::<Resting>::empty());
    }
    while i < q.len()
        invariant
            i <= q@.len(),
            m@ == merged(old(m)@, q@.take(i as int)),
        decreases q@.len() - i,
    {
        proof {
            assert(q@.take(i + 1).drop_last() =~= q@.take(i as int));
        }
        let r = q[i];
        if r.active && r.remaining > 0 {
            let p = price_exec(&r) as i64;
            let cur: u64 = match m.get(&p) {
                Some(v) => *v,
                None => 0,
            };
            m.insert(p, cur.saturating_add(r.remaining));
        }
        i = i + 1;
    }
    proof {
        assert(q@.take(q@.len() as int) =~= q@);
    }
}

fn entries_in_order(m: &BTreeMap<i64, u64>) -> (v: Vec<(i64, u64)>)
    ensures
        sorted_entries(m@, v@),
        v@.len() == m@.dom().len(),
{
    let mut v: Vec<(i64, u64)> = Vec::new();
    let ghost s = m.iter().remaining();
    let ghost keys = s.map_values(|kv: (&i64, &u64)| *kv.0);
    for kv in it: m.iter()
        invariant
            it.seq() == s,
            v@.len() == it.index(),
            forall|i: int| 0 <= i < v@.len() ==> #[trigger] v@[i] == (*s[i].0, *s[i].1),
    {
        v.push((*kv.0, *kv.1));
    }
    proof {
        assert(v@.len() == s.len());
        assert forall|i: int| 0 <= i < v@.len() implies m@.contains_key((#[trigger] v@[i]).0) && m@[v@[i].0] == v@[i].1 by {
            assert(v@[i] == (*s[i].0, *s[i].1));
        }
        assert forall|i: int, j: int| 0 <= i < j < v@.len() implies (#[trigger] v@[i]).0 < (#[trigger] v@[j]).0 by {
            assert(keys[i] == v@[i].0 && keys[j] == v@[j].0);
            assert(keys[i].cmp_spec(&keys[j]) is Less);
        }
        assert forall|k: i64| #[trigger] m@.contains_key(k) implies exists|i: int| 0 <= i < v@.len() && v@[i].0 == k by {
            assert(s.contains((&k, &m@[k])));
            let i = choose|i: int| 0 <= i < s.len() && s[i] == (&k, &m@[k]);
            assert(v@[i] == (*s[i].0, *s[i].1));
        }
    }
    v
}

fn lowest_n(v: &Vec<(i64, u64)>, n: usize, Ghost(m): Ghost<Map<i64, u64>>) -> (r: Vec<(i64, u64)>)
    requires
        sorted_entries(m, v@),
        v@.len() == m.dom().len(),
    ensures
        is_top(m, n as nat, r@, false),
{
    let c = if n < v.len() {
        n
    } else {
        v.len()
    };
    let mut r: Vec<(i64, u64)> = Vec::new();
    let mut i: usize = 0;
    while i < c
        invariant
            c <= v@.len(),
            i <= c,
            r@ == v@.take(i as int),
        decreases c - i,
    {
        r.push(v[i]);
        proof {
            assert(v@.take(i + 1) =~= v@.take(i as int).push(v@[i as int]));
        }
        i = i + 1;
    }
    proof {
        assert forall|k: i64| #[trigger] m.contains_key(k) && (forall|i: int| 0 <= i < r@.len() ==> r@[i].0 != k) implies forall|i: int| 0 <= i < r@.len() ==> r@[i].0 < k by {
            let j = choose|j: int| 0 <= j < v@.len() && v@[j].0 == k;
            if j < c {
                assert(r@[j] == v@[j]);
            }
            assert forall|i: int| 0 <= i < r@.len() implies r@[i].0 < k by {
                assert(r@[i] == v@[i]);
            }
        }
    }
    r
}

fn highest_n(v: &Vec<(i64, u64)>, n: usize, Ghost(m): Ghost<Map<i64, u64>>) -> (r: Vec<(i64, u64)>)
    requires
        sorted_entries(m, v@),
        v@.len() == m.dom().len(),
    ensures
        is_top(m, n as nat, r@, true),
{
    let len = v.len();
    let c = if n < len {
        n
    } else {
        len
    };
    let mut r: Vec<(i64, u64)> = Vec::new();
    let mut i: usize = 0;
    while i < c
        invariant
            len == v@.len(),
            c <= len,
            i <= c,
            r@.len() == i,
            forall|j: int| 0 <= j < i ==> #[trigger] r@[j] == v@[len - 1 - j],
        decreases c - i,
    {
        r.push(v[len - 1 - i]);
        i = i + 1;
    }
    proof {
        assert forall|a: int, b: int| 0 <= a < b < r@.len() implies (#[trigger] r@[a]).0 > (#[trigger] r@[b]).0 by {
            assert(v@[len - 1 - b].0 < v@[len - 1 - a].0);
        }
        assert forall|k: i64| #[trigger] m.contains_key(k) && (forall|i: int| 0 <= i < r@.len() ==> r@[i].0 != k) implies forall|i: int| 0 <= i < r@.len() ==> r@[i].0 > k by {
            let j = choose|j: int| 0 <= j < v@.len() && v@[j].0 == k;
            if j > len - 1 - c {
                assert(r@[len - 1 - j] == v@[j]);
            }
            assert forall|i: int| 0 <= i < r@.len() implies r@[i].0 > k by {
                assert(r@[i] == v@[len - 1 - i]);
            }
        }
    }
    r
}

impl UnifiedBook {
    /// The outside book's depth with the engine's resting size added at each
    /// price (sums capped at the largest `u64`): its `n` best bids, highest
    /// first, and its `n` best asks, lowest first.
    pub fn combined_depth_top_n(&self, n: usize) -> (r: (Vec<(i64, u64)>, Vec<(i64, u64)>))
        ensures
            is_top(merged(self.external.bids@, self.internal.bids@), n as nat, r.0@, true),
            is_top(merged(self.external.asks@, self.internal.asks@), n as nat, r.1@, false),
    {
        let mut bids = self.external.bids.clone();
        let mut asks = self.external.asks.clone();
        add_levels(&mut bids, &self.internal.bids);
        add_levels(&mut asks, &self.internal.asks);
        let bid_entries = entries_in_order(&bids);
        let ask_entries = entries_in_order(&asks);
        (highest_n(&bid_entries, n, Ghost(bids@)), lowest_n(&ask_entries, n, Ghost(asks@)))
    }
}

} // verus!
