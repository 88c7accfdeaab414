use vstd::prelude::*;

use crate::engine::model::{
    best_level, cancel_view, has_id, ids_of, lemma_cancel_wf, unique_ids, BookView,
};
use crate::engine::types::Resting;

verus! {

/// In every well-formed book, when both sides have a best level the best
/// bid price is strictly below the best ask price. Every operation that
/// builds or changes a book (`new`, `submit`, `submit_at`, `submit_with_id`,
/// `cancel_limit_order`, `apply_to_book`, `apply_op`, `replay_ops`,
/// `restore`) ensures `wf`, so this holds of every book they reach.
pub proof fn lemma_best_bid_below_best_ask(b: BookView)
    requires
        b.wf(),
    ensures
        best_level(b.bids) is Some && best_level(b.asks) is Some
            ==> best_level(b.bids)->Some_0.0 < best_level(b.asks)->Some_0.0,
{
}

/// A queue without repeated ids has exactly as many ids as entries.
pub proof fn lemma_ids_of_len(q: Seq<Resting>)
    requires
        unique_ids(q),
    ensures
        ids_of(q).finite(),
        ids_of(q).len() == q.len(),
    decreases q.len(),
{
    if q.len() == 0 {
        assert(ids_of(q) =~= Set::<u64>::empty());
    } else {
        let s = q.drop_last();
        assert(unique_ids(s)) by {
            assert forall|i: int, j: int| 0 <= i < j < s.len() implies (#[trigger] s[i]).id != (#[trigger] s[j]).id by {
                assert(s[i] == q[i] && s[j] == q[j]);
            }
        }
        lemma_ids_of_len(s);
        assert(ids_of(q) =~= ids_of(s).insert(q.last().id)) by {
            assert forall|x: u64| #[trigger] ids_of(q).contains(x) == ids_of(s).insert(q.last().id).contains(x) by {
                if has_id(q, x) {
                    let i = choose|i: int| 0 <= i < q.len() && (#[trigger] q[i]).id == x;
                    if i < q.len() - 1 {
                        assert(s[i] == q[i]);
                    }
                }
                if has_id(s, x) {
                    let i = choose|i: int| 0 <= i < s.len() && (#[trigger] s[i]).id == x;
                    assert(q[i] == s[i]);
                }
                if x == q.last().id {
                    assert(q[q.len() - 1].id == x);
                }
            }
        }
        assert(!ids_of(s).contains(q.last().id)) by {
            if has_id(s, q.last().id) {
                let i = choose|i: int| 0 <= i < s.len() && (#[trigger] s[i]).id == q.last().id;
                assert(q[i].id != q[q.len() - 1].id);
            }
        }
    }
}

/// In every well-formed book (so after every operation, see
/// `lemma_best_bid_below_best_ask`) the id index holds exactly one entry per
/// resting order on either side, and each entry names that order's side
/// and price (`indexed` in `wf`).
pub proof fn lemma_index_counts_resting(b: BookView)
    requires
        b.wf(),
    ensures
        b.index.dom().finite(),
        b.index.len() == b.bids.len() + b.asks.len(),
{
    lemma_ids_of_len(b.bids);
    lemma_ids_of_len(b.asks);
    let a = ids_of(b.bids);
    let c = ids_of(b.asks);
    assert(b.index.dom() =~= a + c) by {
        assert forall|x: u64| b.index.dom().contains(x) == (a + c).contains(x) by {
            if has_id(b.bids, x) {
                let i = choose|i: int| 0 <= i < b.bids.len() && (#[trigger] b.bids[i]).id == x;
                assert(b.index.contains_key(b.bids[i].id));
            }
            if has_id(b.asks, x) {
                let i = choose|i: int| 0 <= i < b.asks.len() && (#[trigger] b.asks[i]).id == x;
                assert(b.index.contains_key(b.asks[i].id));
            }
        }
    }
    assert(a.disjoint(c)) by {
        assert forall|x: u64| !(a.contains(x) && c.contains(x)) by {
            if a.contains(x) && c.contains(x) {
                let i = choose|i: int| 0 <= i < b.bids.len() && (#[trigger] b.bids[i]).id == x;
                let j = choose|j: int| 0 <= j < b.asks.len() && (#[trigger] b.asks[j]).id == x;
                assert(b.bids[i].id != b.asks[j].id);
            }
        }
    }
    vstd::set_lib::lemma_set_disjoint_lens(a, c);
}

/// Cancelling an id a second time, or cancelling an id that is not
/// resting, finds nothing and leaves the book as it is.
pub proof fn lemma_cancel_idempotent(b: BookView, id: u64)
    requires
        b.wf(),
    ensures
        !cancel_view(b, id).index.contains_key(id),
        cancel_view(cancel_view(b, id), id) == cancel_view(b, id),
        !b.index.contains_key(id) ==> cancel_view(b, id) == b,
{
    lemma_cancel_wf(b, id);
}

} // verus!
