use std::collections::BTreeMap;
use vstd::prelude::*;
use vstd::std_specs::cmp::OrdSpec;
use vstd::std_specs::iter::IteratorSpec;

verus! {

broadcast use vstd::std_specs::btree::group_btree_axioms, vstd::laws_cmp::group_laws_cmp;

/// The aggregate book of an outside venue, in integer ticks and lots:
/// price to total size on each side.
pub struct ExternalBook {
    pub bids: BTreeMap<i64, u64>,
    pub asks: BTreeMap<i64, u64>,
}

/// The map that inserting the pairs of `s` in order builds: a later pair
/// for a price replaces an earlier one.
pub open spec fn map_of(s: Seq<(i64, u64)>) -> Map<i64, u64>
    decreases s.len(),
{
    if s.len() == 0 {
        Map::empty()
    } else {
        map_of(s.drop_last()).insert(s.last().0, s.last().1)
    }
}

/// `r` is the entry of `m` with the highest price, or `None` when `m` is empty.
pub open spec fn is_highest(m: Map<i64, u64>, r: Option<(i64, u64)>) -> bool {
    match r {
        None => m =~= Map::empty(),
        Some((p, s)) => m.contains_key(p) && m[p] == s && forall|k: i64| #[trigger]
            m.contains_key(k) ==> k <= p,
    }
}

/// `r` is the entry of `m` with the lowest price, or `None` when `m` is empty.
pub open spec fn is_lowest(m: Map<i64, u64>, r: Option<(i64, u64)>) -> bool {
    match r {
        None => m =~= Map::empty(),
        Some((p, s)) => m.contains_key(p) && m[p] == s && forall|k: i64| #[trigger]
            m.contains_key(k) ==> p <= k,
    }
}

fn fill_map(m: &mut BTreeMap<i64, u64>, levels: &[(i64, u64)])
    ensures
        final(m)@ == map_of(levels@),
{
    m.clear();
    let mut i: usize = 0;
    while i < levels.len()
        invariant
            i <= levels@.len(),
            m@ == map_of(levels@.take(i as int)),
        decreases levels@.len() - i,
    {
        proof {
            assert(levels@.take(i + 1).drop_last() =~= levels@.take(i as int));
        }
        let (p, s) = levels[i];
        m.insert(p, s);
        i = i + 1;
    }
    proof {
        assert(levels@.take(levels@.len() as int) =~= levels@);
    }
}

impl ExternalBook {
    /// An empty book.
    pub fn new() -> (r: ExternalBook)
        ensures
            r.bids@ == Map::<i64, u64>::empty(),
            r.asks@ == Map::<i64, u64>::empty(),
    {
        ExternalBook { bids: BTreeMap::new(), asks: BTreeMap::new() }
    }

    /// Replaces the whole book with a snapshot of (price, size) pairs; a
    /// later pair for a price replaces an earlier one.
    pub fn apply_snapshot(&mut self, bids: &[(i64, u64)], asks: &[(i64, u64)])
        ensures
            final(self).bids@ == map_of(bids@),
            final(self).asks@ == map_of(asks@),
    {
        fill_map(&mut self.bids, bids);
        fill_map(&mut self.asks, asks);
    }

    /// The best bid (highest price) and best ask (lowest price), each with
    /// its size, or `None` for an empty side.
    pub fn bbo(&self) -> (r: (Option<(i64, u64)>, Option<(i64, u64)>))
        ensures
            is_highest(self.bids@, r.0),
            is_lowest(self.asks@, r.1),
    {
        (highest_entry(&self.bids), lowest_entry(&self.asks))
    }
}

fn highest_entry(m: &BTreeMap<i64, u64>) -> (r: Option<(i64, u64)>)
    ensures
        is_highest(m@, r),
{
    let mut best: Option<(i64, u64)> = None;
    let ghost v = m.iter().remaining();
    let ghost mut n: int = 0;
    for kv in it: m.iter()
        invariant
            n == it.index(),
            it.seq() == v,
            n == 0 <==> best is None,
            best matches Some((p, s)) ==> p == *v[n - 1].0 && s == *v[n - 1].1,
    {
        best = Some((*kv.0, *kv.1));
        proof {
            n = n + 1;
        }
    }
    proof {
        assert(n == v.len());
        if best is None {
            assert(m@ =~= Map::empty()) by {
                assert forall|k: i64| !m@.contains_key(k) by {
                    if m@.contains_key(k) {
                        assert(v.contains((&k, &m@[k])));
                    }
                }
            }
        } else {
            let n = v.len() - 1;
            let keys = v.map_values(|kv: (&i64, &u64)| *kv.0);
            assert(keys[n] == *v[n].0);
            assert forall|k: i64| #[trigger] m@.contains_key(k) implies k <= *v[n].0 by {
                assert(v.contains((&k, &m@[k])));
                let i = choose|i: int| 0 <= i < v.len() && v[i] == (&k, &m@[k]);
                assert(keys[i] == k);
                if i < n {
                    assert(keys[i].cmp_spec(&keys[n]) is Less);
                }
            }
        }
    }
    best
}

fn lowest_entry(m: &BTreeMap<i64, u64>) -> (r: Option<(i64, u64)>)
    ensures
        is_lowest(m@, r),
{
    let mut best: Option<(i64, u64)> = None;
    let ghost v = m.iter().remaining();
    let ghost mut n: int = 0;
    for kv in it: m.iter()
        invariant
            n == it.index(),
            it.seq() == v,
            n == 0 <==> best is None,
            best matches Some((p, s)) ==> p == *v[0].0 && s == *v[0].1,
    {
        if best.is_none() {
            best = Some((*kv.0, *kv.1));
        }
        proof {
            n = n + 1;
        }
    }
    proof {
        assert(n == v.len());
        if best is None {
            assert(m@ =~= Map::empty()) by {
                assert forall|k: i64| !m@.contains_key(k) by {
                    if m@.contains_key(k) {
                        assert(v.contains((&k, &m@[k])));
                    }
                }
            }
        } else {
            let keys = v.map_values(|kv: (&i64, &u64)| *kv.0);
            assert(keys[0] == *v[0].0);
            assert forall|k: i64| #[trigger] m@.contains_key(k) implies *v[0].0 <= k by {
                assert(v.contains((&k, &m@[k])));
                let i = choose|i: int| 0 <= i < v.len() && v[i] == (&k, &m@[k]);
                assert(keys[i] == k);
                if 0 < i {
                    assert(keys[0].cmp_spec(&keys[i]) is Less);
                }
            }
        }
    }
    best
}

} // verus!
