//! The sorted view: a derived, read-only ranking of the registry by daily
//! percentage change, descending, stable on ties.
//!
//! The view holds registry positions, so a ranked row maps straight back to
//! its source entry. It is recomputed from a registry snapshot whenever the
//! scheduler signals that a daily fetch settled or the membership changed.

use vstd::prelude::*;
use crate::registry::Registry;
use crate::stock::Stock;

verus! {

/// The ranking key of each entry, in registry order.
pub open spec fn key_seq(entries: Seq<Stock>) -> Seq<i64> {
    Seq::new(entries.len(), |i: int| entries[i].pct_change_1d)
}

pub struct SortedView {
    /// `order[p]` is the registry position of the entry ranked `p`-th.
    pub order: Vec<usize>,
}

impl SortedView {
    /// What makes an order a correct ranking of entries with these keys:
    /// it lists every registry position exactly once, keys never increase
    /// along it, and entries with equal keys keep their registry order.
    pub open spec fn valid_for(&self, keys: Seq<i64>) -> bool {
        &&& keys.len() <= usize::MAX
        &&& self.order@.len() == keys.len()
        &&& forall|p: int| 0 <= p < self.order@.len() ==> #[trigger] self.order@[p] < keys.len()
        &&& forall|p: int, q: int|
            0 <= p < q < self.order@.len() ==> #[trigger] self.order@[p] != #[trigger] self.order@[q]
        &&& forall|j: int| 0 <= j < keys.len() ==> #[trigger] self.order@.contains(j as usize)
        &&& forall|p: int, q: int|
            0 <= p < q < self.order@.len() ==> (keys[#[trigger] self.order@[p] as int]
                > keys[#[trigger] self.order@[q] as int] || (keys[self.order@[p] as int]
                == keys[self.order@[q] as int] && self.order@[p] < self.order@[q]))
    }

    /// The rank of the entry at registry position `j`: the view position
    /// whose lookup leads back to `j`. Well defined when the view is valid.
    pub open spec fn rank_of(&self, j: int) -> int {
        choose|p: int| 0 <= p < self.order@.len() && self.order@[p] == j
    }

    /// An empty view, valid for an empty registry.
    pub fn new() -> (v: SortedView)
        ensures
            v.order@ == Seq::<usize>::empty(),
            v.valid_for(Seq::<i64>::empty()),
    {
        SortedView { order: Vec::new() }
    }

    pub fn len(&self) -> (n: usize)
        ensures
            n == self.order@.len(),
    {
        self.order.len()
    }

    /// The registry position of the entry ranked `p`-th: the reverse lookup
    /// from a ranked row to its source entry.
    pub fn registry_pos(&self, p: usize) -> (j: usize)
        requires
            p < self.order@.len(),
        ensures
            j == self.order@[p as int],
    {
        self.order[p]
    }

    /// Position-to-entity lookup: the stock ranked `p`-th.
    pub fn stock_at<'a>(&self, r: &'a Registry, p: usize) -> (s: &'a Stock)
        requires
            self.valid_for(key_seq(r.entries@)),
            p < self.order@.len(),
        ensures
            *s == r.entries@[self.order@[p as int] as int],
    {
        let j = self.order[p];
        r.stock_at(j)
    }

    /// Ranks the registry snapshot: a stable insertion sort on the daily
    /// change, descending. Each entry goes after every already placed entry
    /// whose key is at least its own, so equal keys keep registry order.
    pub fn recompute(r: &Registry) -> (v: SortedView)
        ensures
            v.valid_for(key_seq(r.entries@)),
    {
        let ghost keys = key_seq(r.entries@);
        let n = r.entries.len();
        let mut order: Vec<usize> = Vec::new();
        let mut i: usize = 0;
        while i < n
            invariant
                n == r.entries@.len(),
                i <= n,
                order@.len() == i,
                keys == key_seq(r.entries@),
                forall|p: int| 0 <= p < i ==> #[trigger] order@[p] < i,
                forall|j: int| 0 <= j < i ==> #[trigger] order@.contains(j as usize),
                forall|p: int, q: int|
                    0 <= p < q < i ==> (keys[#[trigger] order@[p] as int]
                        > keys[#[trigger] order@[q] as int] || (keys[order@[p] as int]
                        == keys[order@[q] as int] && order@[p] < order@[q])),
            decreases n - i,
        {
            let key_i = r.entries[i].pct_change_1d;
            let mut p: usize = 0;
            while p < i && r.entries[order[p]].pct_change_1d >= key_i
                invariant
                    n == r.entries@.len(),
                    i < n,
                    order@.len() == i,
                    keys == key_seq(r.entries@),
                    key_i == keys[i as int],
                    forall|q: int| 0 <= q < i ==> #[trigger] order@[q] < i,
                    p <= i,
                    forall|q: int| 0 <= q < p ==> keys[#[trigger] order@[q] as int] >= key_i,
                decreases i - p,
            {
                p = p + 1;
            }
            proof {
                let os = order@;
                // Everything from the split point on has a strictly smaller
                // key: the first such entry by the loop exit, the rest by
                // sortedness through it.
                assert forall|q: int| p <= q < i implies keys[#[trigger] os[q] as int]
                    < key_i by {
                    if q > p {
                        assert(keys[os[p as int] as int] >= keys[os[q] as int]);
                    }
                }
                os.insert_ensures(p as int, i);
            }
            let ghost prev = order@;
            order.insert(p, i);
            proof {
                let os = order@;
                assert forall|j: int| 0 <= j < i + 1 implies #[trigger] os.contains(
                    j as usize,
                ) by {
                    if j == i {
                        assert(os[p as int] == i as usize);
                    } else {
                        assert(prev.contains(j as usize));
                        let q0 = choose|q: int| 0 <= q < prev.len() && prev[q] == j as usize;
                        if q0 < p {
                            assert(os[q0] == j as usize);
                        } else {
                            assert(os[q0 + 1] == j as usize);
                        }
                    }
                }
                assert forall|a: int, b: int| 0 <= a < b < i + 1 implies (keys[#[trigger] os[
                    a] as int] > keys[#[trigger] os[b] as int] || (keys[os[a] as int] == keys[os[
                    b] as int] && os[a] < os[b])) by {
                    if a == p {
                        // the new entry against a later one
                        assert(os[b] == prev[b - 1] && p <= b - 1 < i);
                    } else if b == p {
                        // an earlier one against the new entry: key at least
                        // the new key, and on a tie the old index is smaller
                        assert(os[a] == prev[a] && keys[prev[a] as int] >= key_i);
                        assert(prev[a] < i as usize);
                    } else {
                        let a0: int = if a < p { a } else { a - 1 };
                        let b0: int = if b < p { b } else { b - 1 };
                        assert(os[a] == prev[a0] && os[b] == prev[b0] && 0 <= a0 < b0 < i);
                    }
                }
            }
            i = i + 1;
        }
        SortedView { order }
    }
}

/// The entities as the view ranks them: the stocks read off along the order.
pub open spec fn ranked_entities(v: &SortedView, entries: Seq<Stock>) -> Seq<Stock> {
    Seq::new(v.order@.len(), |p: int| entries[v.order@[p] as int])
}

/// The view never shows more or fewer entities than the registry holds: for
/// any valid view, the set of stocks read off along the ranking equals the
/// set of stocks in the registry snapshot it ranks.
pub proof fn lemma_view_same_membership(v: &SortedView, entries: Seq<Stock>)
    requires
        v.valid_for(key_seq(entries)),
    ensures
        ranked_entities(v, entries).to_set() == entries.to_set(),
{
    let ranked = ranked_entities(v, entries);
    assert forall|s: Stock| ranked.to_set().contains(s) implies entries.to_set().contains(
        s,
    ) by {
        let p = choose|p: int| 0 <= p < ranked.len() && ranked[p] == s;
        assert(entries[v.order@[p] as int] == s);
    }
    assert forall|s: Stock| entries.to_set().contains(s) implies ranked.to_set().contains(
        s,
    ) by {
        let j = choose|j: int| 0 <= j < entries.len() && entries[j] == s;
        assert(v.order@.contains(j as usize));
        let p = choose|p: int| 0 <= p < v.order@.len() && v.order@[p] == j as usize;
        assert(ranked[p] == s);
    }
    assert(ranked.to_set() =~= entries.to_set());
}

/// The first `p` ranks of two valid rankings of the same keys agree.
proof fn lemma_ranking_unique_prefix(v1: &SortedView, v2: &SortedView, keys: Seq<i64>, p: int)
    requires
        v1.valid_for(keys),
        v2.valid_for(keys),
        0 <= p <= keys.len(),
    ensures
        forall|q: int| 0 <= q < p ==> v1.order@[q] == v2.order@[q],
    decreases p,
{
    if p > 0 {
        lemma_ranking_unique_prefix(v1, v2, keys, p - 1);
        let a = v1.order@[p - 1];
        let b = v2.order@[p - 1];
        if a != b {
            let ghost bi = b as int;
            assert(v1.order@.contains(bi as usize));
            let p1 = choose|i: int| 0 <= i < v1.order@.len() && v1.order@[i] == bi as usize;
            assert(v1.order@[p1] == b);
            assert(p1 > p - 1) by {
                if p1 < p - 1 {
                    assert(v2.order@[p1] == b);
                }
            }
            let ghost ai = a as int;
            assert(v2.order@.contains(ai as usize));
            let p2 = choose|i: int| 0 <= i < v2.order@.len() && v2.order@[i] == ai as usize;
            assert(v2.order@[p2] == a);
            assert(p2 > p - 1) by {
                if p2 < p - 1 {
                    assert(v1.order@[p2] == a);
                }
            }
            // v1 ranks a before b, v2 ranks b before a: impossible for one
            // strict precedence
            assert(keys[a as int] > keys[b as int] || (keys[a as int] == keys[b as int] && a
                < b));
            assert(keys[b as int] > keys[a as int] || (keys[b as int] == keys[a as int] && b
                < a));
        }
    }
}

/// There is exactly one correct ranking: any two valid rankings of the same
/// keys are the same, so `recompute`'s contract determines its result whole.
pub proof fn lemma_ranking_unique(v1: &SortedView, v2: &SortedView, keys: Seq<i64>)
    requires
        v1.valid_for(keys),
        v2.valid_for(keys),
    ensures
        v1.order@ == v2.order@,
{
    lemma_ranking_unique_prefix(v1, v2, keys, keys.len() as int);
    assert(v1.order@ =~= v2.order@);
}

/// The ranking law: an entry with a strictly greater daily change is ranked
/// before one with a smaller, and entries with equal changes keep their
/// registry order.
pub proof fn lemma_view_ranks_by_change(v: &SortedView, keys: Seq<i64>, a: int, b: int)
    requires
        v.valid_for(keys),
        0 <= a < keys.len(),
        0 <= b < keys.len(),
        keys[a] > keys[b] || (keys[a] == keys[b] && a < b),
    ensures
        0 <= v.rank_of(a) < keys.len(),
        0 <= v.rank_of(b) < keys.len(),
        v.order@[v.rank_of(a)] == a,
        v.order@[v.rank_of(b)] == b,
        v.rank_of(a) < v.rank_of(b),
{
    let p = v.rank_of(a);
    let q = v.rank_of(b);
    assert(v.order@.contains(a as usize));
    assert(v.order@.contains(b as usize));
    if q < p {
        assert(keys[v.order@[q] as int] > keys[v.order@[p] as int] || (keys[v.order@[q] as int]
            == keys[v.order@[p] as int] && v.order@[q] < v.order@[p]));
    }
    if p == q {
        assert(a == b);
    }
}

} // verus!
