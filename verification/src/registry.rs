//! The registry: the authoritative, insertion-ordered collection of tracked
//! stocks.
//!
//! All mutation goes through `create` and `remove`; position order is the
//! tie-break order used by the sorted view. Duplicate tickers are admitted by
//! design; the `id` handle, not the ticker, identifies an entry.

use vstd::prelude::*;
use crate::stock::Stock;

verus! {

pub struct Registry {
    pub entries: Vec<Stock>,
    /// The handle the next created stock will get; ids are never reused.
    pub next_id: u64,
}

impl Registry {
    /// The ids of the entries, in registry order.
    pub open spec fn ids(&self) -> Seq<u64> {
        Seq::new(self.entries@.len(), |i: int| self.entries@[i].id)
    }

    /// Whether some entry carries this id.
    pub open spec fn contains_id(&self, id: u64) -> bool {
        exists|i: int| 0 <= i < self.entries@.len() && self.entries@[i].id == id
    }

    /// The position of the entry with this id, if any. Well defined on a
    /// well-formed registry, where ids are unique.
    pub open spec fn spec_index_of_id(&self, id: u64) -> Option<int> {
        if self.contains_id(id) {
            Some(choose|i: int| 0 <= i < self.entries@.len() && self.entries@[i].id == id)
        } else {
            None
        }
    }

    /// Well-formedness: ids are unique and below the allocation counter.
    pub open spec fn wf(&self) -> bool {
        &&& forall|i: int|
            0 <= i < self.entries@.len() ==> #[trigger] self.entries@[i].id < self.next_id
        &&& forall|i: int, j: int|
            0 <= i < j < self.entries@.len() ==> #[trigger] self.entries@[i].id != #[trigger] self.entries@[j].id
    }

    /// An empty registry.
    pub fn new() -> (r: Registry)
        ensures
            r.wf(),
            r.entries@ == Seq::<Stock>::empty(),
            r.next_id == 0,
    {
        Registry { entries: Vec::new(), next_id: 0 }
    }

    pub fn len(&self) -> (n: usize)
        ensures
            n == self.entries@.len(),
    {
        self.entries.len()
    }

    pub fn stock_at(&self, pos: usize) -> (s: &Stock)
        requires
            pos < self.entries@.len(),
        ensures
            *s == self.entries@[pos as int],
    {
        &self.entries[pos]
    }

    /// Appends a new stock with zero price and changes, and returns its
    /// handle. The `next_id` bound is a machine limit on how many stocks can
    /// ever be created in one registry.
    pub fn create(&mut self, ticker: String, name: String) -> (id: u64)
        requires
            old(self).wf(),
            old(self).next_id < u64::MAX,
        ensures
            final(self).wf(),
            id == old(self).next_id,
            final(self).next_id == old(self).next_id + 1,
            final(self).entries@ == old(self).entries@.push(
                (Stock {
                    id,
                    ticker,
                    name,
                    price_cents: 0,
                    pct_change_1d: 0,
                    pct_change_1w: 0,
                }),
            ),
            !old(self).contains_id(id),
    {
        let id = self.next_id;
        self.next_id = self.next_id + 1;
        self.entries.push(Stock::new(id, ticker, name));
        id
    }

    /// Removes the entry at this registry position. An entry once removed
    /// never resurrects: its id stays retired because `next_id` only grows.
    pub fn remove(&mut self, pos: usize)
        requires
            old(self).wf(),
            pos < old(self).entries@.len(),
        ensures
            final(self).wf(),
            final(self).next_id == old(self).next_id,
            final(self).entries@ == old(self).entries@.remove(pos as int),
            !final(self).contains_id(old(self).entries@[pos as int].id),
    {
        self.entries.remove(pos);
        proof {
            let removed_id = old(self).entries@[pos as int].id;
            assert forall|i: int| 0 <= i < self.entries@.len() implies #[trigger] self.entries@[i].id
                != removed_id by {
                if i < pos {
                    assert(self.entries@[i] == old(self).entries@[i]);
                } else {
                    assert(self.entries@[i] == old(self).entries@[i + 1]);
                }
            }
        }
    }

    /// The registry position of the entry with this id: the identity-based
    /// linear scan used to map a ranked row back to its source entry.
    pub fn index_of_id(&self, id: u64) -> (r: Option<usize>)
        requires
            self.wf(),
        ensures
            match r {
                Some(pos) => {
                    &&& pos < self.entries@.len()
                    &&& self.entries@[pos as int].id == id
                    &&& self.spec_index_of_id(id) == Some(pos as int)
                },
                None => !self.contains_id(id),
            },
    {
        let n = self.entries.len();
        let mut i: usize = 0;
        while i < n
            invariant
                n == self.entries@.len(),
                i <= n,
                forall|j: int| 0 <= j < i ==> #[trigger] self.entries@[j].id != id,
                self.wf(),
            decreases n - i,
        {
            if self.entries[i].id == id {
                proof {
                    let w = choose|k: int|
                        0 <= k < self.entries@.len() && self.entries@[k].id == id;
                    assert(w == i as int);
                }
                return Some(i);
            }
            i = i + 1;
        }
        None
    }

    /// The current ordered sequence of stocks, copied out for iteration by
    /// other components.
    pub fn snapshot(&self) -> (r: Vec<Stock>)
        ensures
            r@ == self.entries@,
    {
        let n = self.entries.len();
        let mut r: Vec<Stock> = Vec::new();
        let mut i: usize = 0;
        while i < n
            invariant
                n == self.entries@.len(),
                i <= n,
                r@ == self.entries@.take(i as int),
            decreases n - i,
        {
            let s = &self.entries[i];
            r.push(
                Stock {
                    id: s.id,
                    ticker: s.ticker.clone(),
                    name: s.name.clone(),
                    price_cents: s.price_cents,
                    pct_change_1d: s.pct_change_1d,
                    pct_change_1w: s.pct_change_1w,
                },
            );
            proof {
                assert(r@ =~= self.entries@.take(i + 1));
            }
            i = i + 1;
        }
        proof {
            assert(r@ =~= self.entries@);
        }
        r
    }

    /// The `(ticker, name)` pairs of the entries, in registry order: what the
    /// persisted list is rebuilt from after every add or remove.
    pub fn ticker_pairs(&self) -> (r: Vec<(String, String)>)
        ensures
            r@.len() == self.entries@.len(),
            forall|i: int|
                0 <= i < r@.len() ==> #[trigger] r@[i] == (
                    self.entries@[i].ticker,
                    self.entries@[i].name,
                ),
    {
        let n = self.entries.len();
        let mut r: Vec<(String, String)> = Vec::new();
        let mut i: usize = 0;
        while i < n
            invariant
                n == self.entries@.len(),
                i <= n,
                r@.len() == i,
                forall|j: int|
                    0 <= j < i ==> #[trigger] r@[j] == (
                        self.entries@[j].ticker,
                        self.entries@[j].name,
                    ),
            decreases n - i,
        {
            let s = &self.entries[i];
            r.push((s.ticker.clone(), s.name.clone()));
            i = i + 1;
        }
        r
    }

    /// A registry pre-seeded from a persisted `(ticker, name)` list, in list
    /// order, with ids `0, 1, ...`. The length bound is the machine limit of
    /// `create`.
    pub fn from_pairs(pairs: &Vec<(String, String)>) -> (r: Registry)
        requires
            pairs@.len() < u64::MAX,
        ensures
            r.wf(),
            r.entries@.len() == pairs@.len(),
            r.next_id == pairs@.len(),
            forall|i: int|
                0 <= i < pairs@.len() ==> #[trigger] r.entries@[i] == (Stock {
                    id: i as u64,
                    ticker: pairs@[i].0,
                    name: pairs@[i].1,
                    price_cents: 0,
                    pct_change_1d: 0,
                    pct_change_1w: 0,
                }),
    {
        let mut r = Registry::new();
        let n = pairs.len();
        let mut i: usize = 0;
        while i < n
            invariant
                n == pairs@.len(),
                n < u64::MAX,
                i <= n,
                r.wf(),
                r.entries@.len() == i,
                r.next_id == i,
                forall|j: int|
                    0 <= j < i ==> #[trigger] r.entries@[j] == (Stock {
                        id: j as u64,
                        ticker: pairs@[j].0,
                        name: pairs@[j].1,
                        price_cents: 0,
                        pct_change_1d: 0,
                        pct_change_1w: 0,
                    }),
            decreases n - i,
        {
            let (ticker, name) = &pairs[i];
            r.create(ticker.clone(), name.clone());
            i = i + 1;
        }
        r
    }
}

} // verus!
