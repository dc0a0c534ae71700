//! The refresh engine: the manager that owns the registry, the ranked view
//! and the aggregate scalar, and the application of fetch results to it.
//!
//! A refresh cycle fans out one weekly and one daily fetch per tracked stock.
//! The fetches settle in any order, possibly interleaved across cycles; each
//! settled fetch comes back to the manager as one `FetchEvent`, applied on a
//! single control thread. An event names its target by the stock's handle, so
//! a fetch that outlives its stock's removal settles harmlessly: it finds no
//! entry and changes none.

use vstd::prelude::*;
use crate::registry::Registry;
use crate::stock::Stock;
use crate::view::SortedView;
use crate::view::key_seq;

verus! {

/// What one range fetch reports: closes in cents, the change between them in
/// hundredths of a percent.
pub struct RangeResponse {
    pub prev_close_cents: i64,
    pub last_close_cents: i64,
    pub pct_change: i64,
}

/// One settled fetch. Provider errors surface only as the `Failed` variants:
/// "no update this cycle" for the target, never an error for the caller.
pub enum FetchEvent {
    /// A weekly range arrived, possibly carrying a fresher display name.
    WeeklyOk { id: u64, quote: RangeResponse, name: Option<String> },
    WeeklyFailed { id: u64 },
    /// A daily range arrived; beside the target's fields it overwrites the
    /// aggregate scalar.
    DailyOk { id: u64, quote: RangeResponse },
    DailyFailed { id: u64 },
}

/// Whether some stock in the sequence carries this id.
pub open spec fn stocks_contain(stocks: Seq<Stock>, id: u64) -> bool {
    exists|i: int| 0 <= i < stocks.len() && stocks[i].id == id
}

/// The position of the stock with this id; well defined when ids are unique.
pub open spec fn stock_index(stocks: Seq<Stock>, id: u64) -> int {
    choose|i: int| 0 <= i < stocks.len() && stocks[i].id == id
}

/// A weekly success updates the weekly change and the price, and the display
/// name when the response carries one.
pub open spec fn update_weekly(s: Stock, quote: RangeResponse, name: Option<String>) -> Stock {
    Stock {
        pct_change_1w: quote.pct_change,
        price_cents: quote.last_close_cents,
        name: (match name {
            Some(n) => n,
            None => s.name,
        }),
        ..s
    }
}

/// A daily success updates the daily change and the price; whichever of the
/// two fetches settles last for a stock leaves its price.
pub open spec fn update_daily(s: Stock, quote: RangeResponse) -> Stock {
    Stock { pct_change_1d: quote.pct_change, price_cents: quote.last_close_cents, ..s }
}

/// What one settled fetch does to the tracked stocks and to the aggregate
/// scalar. A daily success overwrites the scalar even when its target is
/// gone: the fetch completed against its own detached reference.
pub open spec fn apply_event_spec(stocks: Seq<Stock>, avg: i64, e: FetchEvent) -> (
    Seq<Stock>,
    i64,
) {
    match e {
        FetchEvent::WeeklyOk { id, quote, name } => {
            if stocks_contain(stocks, id) {
                let i = stock_index(stocks, id);
                (stocks.update(i, update_weekly(stocks[i], quote, name)), avg)
            } else {
                (stocks, avg)
            }
        },
        FetchEvent::WeeklyFailed { id } => (stocks, avg),
        FetchEvent::DailyOk { id, quote } => {
            if stocks_contain(stocks, id) {
                let i = stock_index(stocks, id);
                (stocks.update(i, update_daily(stocks[i], quote)), quote.pct_change)
            } else {
                (stocks, quote.pct_change)
            }
        },
        FetchEvent::DailyFailed { id } => (stocks, avg),
    }
}

/// The stocks and the scalar after a whole sequence of fetches settles, in
/// that order.
pub open spec fn run_events(stocks: Seq<Stock>, avg: i64, events: Seq<FetchEvent>) -> (
    Seq<Stock>,
    i64,
)
    decreases events.len(),
{
    if events.len() == 0 {
        (stocks, avg)
    } else {
        let t = apply_event_spec(stocks, avg, events[0]);
        run_events(t.0, t.1, events.drop_first())
    }
}

/// What one settled fetch does to one stock: nothing unless the fetch was for
/// this very stock.
pub open spec fn step_stock(s: Stock, e: FetchEvent) -> Stock {
    match e {
        FetchEvent::WeeklyOk { id, quote, name } => {
            if id == s.id {
                update_weekly(s, quote, name)
            } else {
                s
            }
        },
        FetchEvent::DailyOk { id, quote } => {
            if id == s.id {
                update_daily(s, quote)
            } else {
                s
            }
        },
        FetchEvent::WeeklyFailed { id } => s,
        FetchEvent::DailyFailed { id } => s,
    }
}

/// One stock after a whole sequence of fetches settles.
pub open spec fn run_events_on_stock(s: Stock, events: Seq<FetchEvent>) -> Stock
    decreases events.len(),
{
    if events.len() == 0 {
        s
    } else {
        run_events_on_stock(step_stock(s, events[0]), events.drop_first())
    }
}

/// Unique handles across a stock sequence; the registry invariant guarantees
/// it for every snapshot.
pub open spec fn ids_unique(stocks: Seq<Stock>) -> bool {
    forall|i: int, j: int|
        0 <= i < j < stocks.len() ==> #[trigger] stocks[i].id != #[trigger] stocks[j].id
}

/// The target of a settled fetch.
pub open spec fn event_id(e: FetchEvent) -> u64 {
    match e {
        FetchEvent::WeeklyOk { id, .. } => id,
        FetchEvent::WeeklyFailed { id } => id,
        FetchEvent::DailyOk { id, .. } => id,
        FetchEvent::DailyFailed { id } => id,
    }
}

/// The aggregate scalar owed after a sequence of fetches settles: what the
/// chronologically last daily success carried, or the starting value when
/// none succeeded. Last write wins; this is no mean.
pub open spec fn settled_aggregate(avg0: i64, events: Seq<FetchEvent>) -> i64
    decreases events.len(),
{
    if events.len() == 0 {
        avg0
    } else {
        match events.last() {
            FetchEvent::DailyOk { id, quote } => quote.pct_change,
            _ => settled_aggregate(avg0, events.drop_last()),
        }
    }
}

/// Settling one more fetch after a sequence is the same as settling it on the
/// sequence's outcome.
pub proof fn lemma_run_events_snoc(stocks: Seq<Stock>, avg: i64, events: Seq<FetchEvent>, e: FetchEvent)
    ensures
        run_events(stocks, avg, events.push(e)) == apply_event_spec(
            run_events(stocks, avg, events).0,
            run_events(stocks, avg, events).1,
            e,
        ),
    decreases events.len(),
{
    if events.len() == 0 {
        assert(events.push(e).drop_first() =~= Seq::<FetchEvent>::empty());
        reveal_with_fuel(run_events, 2);
    } else {
        assert(events.push(e).drop_first() =~= events.drop_first().push(e));
        let t = apply_event_spec(stocks, avg, events[0]);
        lemma_run_events_snoc(t.0, t.1, events.drop_first(), e);
    }
}

/// As `lemma_run_events_snoc`, for a single stock.
pub proof fn lemma_run_on_stock_snoc(s: Stock, events: Seq<FetchEvent>, e: FetchEvent)
    ensures
        run_events_on_stock(s, events.push(e)) == step_stock(run_events_on_stock(s, events), e),
    decreases events.len(),
{
    if events.len() == 0 {
        assert(events.push(e).drop_first() =~= Seq::<FetchEvent>::empty());
        reveal_with_fuel(run_events_on_stock, 2);
    } else {
        assert(events.push(e).drop_first() =~= events.drop_first().push(e));
        lemma_run_on_stock_snoc(step_stock(s, events[0]), events.drop_first(), e);
    }
}

/// Independence of concurrent fetches: however a cycle's fetches interleave,
/// every stock ends up exactly as if only the fetches aimed at it had
/// settled, in their order — no fetch ever touches another stock. Membership
/// is untouched along the way: same length, same handle at every position.
pub proof fn lemma_run_events_pointwise(stocks: Seq<Stock>, avg: i64, events: Seq<FetchEvent>)
    requires
        ids_unique(stocks),
    ensures
        run_events(stocks, avg, events).0.len() == stocks.len(),
        forall|i: int|
            0 <= i < stocks.len() ==> #[trigger] run_events(stocks, avg, events).0[i]
                == run_events_on_stock(stocks[i], events),
        forall|i: int|
            0 <= i < stocks.len() ==> #[trigger] run_events(stocks, avg, events).0[i].id
                == stocks[i].id,
    decreases events.len(),
{
    assert forall|i: int, e: FetchEvent| 0 <= i < stocks.len() implies #[trigger] step_stock(
        stocks[i],
        e,
    ).id == stocks[i].id by {}
    if events.len() == 0 {
        assert forall|i: int| 0 <= i < stocks.len() implies #[trigger] run_events_on_stock(
            stocks[i],
            Seq::<FetchEvent>::empty(),
        ) == stocks[i] by {}
    } else {
        let e0 = events[0];
        let t = apply_event_spec(stocks, avg, e0);
        assert forall|i: int| 0 <= i < stocks.len() implies #[trigger] t.0[i] == step_stock(
            stocks[i],
            e0,
        ) by {
            let id = event_id(e0);
            if stocks_contain(stocks, id) {
                let k = stock_index(stocks, id);
                if i != k && stocks[i].id == id {
                    assert(false);
                }
            }
        }
        assert(t.0.len() == stocks.len());
        assert(ids_unique(t.0)) by {
            assert forall|i: int| 0 <= i < t.0.len() implies #[trigger] t.0[i].id
                == stocks[i].id by {}
        }
        lemma_run_events_pointwise(t.0, t.1, events.drop_first());
        assert forall|i: int| 0 <= i < stocks.len() implies #[trigger] run_events(
            stocks,
            avg,
            events,
        ).0[i] == run_events_on_stock(stocks[i], events) by {
            assert(run_events(stocks, avg, events).0[i] == run_events_on_stock(
                t.0[i],
                events.drop_first(),
            ));
        }
    }
}

/// Last write wins on the aggregate scalar: after all of a cycle's fetches
/// settle, the scalar equals the daily change carried by whichever daily
/// fetch settled chronologically last, over all instruments — not a mean.
pub proof fn lemma_aggregate_last_write(stocks: Seq<Stock>, avg: i64, events: Seq<FetchEvent>)
    ensures
        run_events(stocks, avg, events).1 == settled_aggregate(avg, events),
    decreases events.len(),
{
    if events.len() > 0 {
        let es = events.drop_last();
        let e = events.last();
        lemma_aggregate_last_write(stocks, avg, es);
        assert(events =~= es.push(e));
        lemma_run_events_snoc(stocks, avg, es, e);
    }
}

/// The daily quote a stock is owed: the chronologically last daily success
/// aimed at it, if any settled.
pub open spec fn last_daily_for(id: u64, events: Seq<FetchEvent>) -> Option<RangeResponse>
    decreases events.len(),
{
    if events.len() == 0 {
        None
    } else {
        match events.last() {
            FetchEvent::DailyOk { id: eid, quote } => {
                if eid == id {
                    Some(quote)
                } else {
                    last_daily_for(id, events.drop_last())
                }
            },
            _ => last_daily_for(id, events.drop_last()),
        }
    }
}

/// A stock's daily change after everything settles is the one carried by the
/// last daily success aimed at it — stale only when none succeeded.
pub proof fn lemma_stock_shows_last_daily(s: Stock, events: Seq<FetchEvent>)
    ensures
        run_events_on_stock(s, events).id == s.id,
        run_events_on_stock(s, events).pct_change_1d == (match last_daily_for(s.id, events) {
            Some(q) => q.pct_change,
            None => s.pct_change_1d,
        }),
    decreases events.len(),
{
    if events.len() > 0 {
        let es = events.drop_last();
        let e = events.last();
        lemma_stock_shows_last_daily(s, es);
        assert(events =~= es.push(e));
        lemma_run_on_stock_snoc(s, es, e);
    }
}

/// Removal wins over an outstanding fetch: once no entry carries the handle,
/// a settling fetch changes no membership and no field — nothing reappears.
/// Only a daily success still leaves its change in the aggregate scalar, as
/// it does for a live stock: the fetch completed against its own detached
/// reference.
pub proof fn lemma_detached_fetch_harmless(stocks: Seq<Stock>, avg: i64, e: FetchEvent)
    requires
        !stocks_contain(stocks, event_id(e)),
    ensures
        apply_event_spec(stocks, avg, e).0 == stocks,
        apply_event_spec(stocks, avg, e).1 == (match e {
            FetchEvent::DailyOk { id, quote } => quote.pct_change,
            _ => avg,
        }),
{
}

/// Removing a stock wins over its outstanding fetches, start to finish:
/// right after the removal the membership no longer holds its handle, and
/// when a fetch for it settles later, the membership is exactly what the
/// removal left — the stock does not reappear.
pub proof fn lemma_removed_stock_never_returns(
    stocks: Seq<Stock>,
    pos: int,
    avg: i64,
    e: FetchEvent,
)
    requires
        ids_unique(stocks),
        0 <= pos < stocks.len(),
        event_id(e) == stocks[pos].id,
    ensures
        !stocks_contain(stocks.remove(pos), event_id(e)),
        apply_event_spec(stocks.remove(pos), avg, e).0 == stocks.remove(pos),
{
    let removed = stocks.remove(pos);
    assert forall|i: int| 0 <= i < removed.len() implies #[trigger] removed[i].id != event_id(
        e,
    ) by {
        stocks.remove_ensures(pos);
        if i < pos {
            assert(removed[i] == stocks[i]);
        } else {
            assert(removed[i] == stocks[i + 1]);
        }
    }
    lemma_detached_fetch_harmless(removed, avg, e);
}

/// The manager: the registry of tracked stocks, the ranked view derived from
/// it, and the aggregate scalar the status publisher reads.
///
/// Everything here runs on one control thread; the scalar is shared with the
/// publisher through whatever exclusion the shell provides around the whole
/// manager.
pub struct StockManager {
    pub registry: Registry,
    pub view: SortedView,
    /// The aggregate scalar, in hundredths of a percent. Despite the name it
    /// is no mean: the last settled daily success wrote it, whole.
    pub avg_change: i64,
}

impl StockManager {
    /// The manager's invariant: unique handles, and a view that ranks exactly
    /// the current registry.
    pub open spec fn wf(&self) -> bool {
        &&& self.registry.wf()
        &&& self.view.valid_for(key_seq(self.registry.entries@))
    }

    /// An empty manager with the aggregate scalar at zero.
    pub fn new() -> (m: StockManager)
        ensures
            m.wf(),
            m.registry.entries@ == Seq::<Stock>::empty(),
            m.registry.next_id == 0,
            m.avg_change == 0,
    {
        StockManager { registry: Registry::new(), view: SortedView::new(), avg_change: 0 }
    }

    /// A manager pre-seeded from the persisted `(ticker, name)` list, as at
    /// startup.
    pub fn from_pairs(pairs: &Vec<(String, String)>) -> (m: StockManager)
        requires
            pairs@.len() < u64::MAX,
        ensures
            m.wf(),
            m.avg_change == 0,
            m.registry.entries@.len() == pairs@.len(),
            m.registry.next_id == pairs@.len(),
            forall|i: int|
                0 <= i < pairs@.len() ==> #[trigger] m.registry.entries@[i] == (Stock {
                    id: i as u64,
                    ticker: pairs@[i].0,
                    name: pairs@[i].1,
                    price_cents: 0,
                    pct_change_1d: 0,
                    pct_change_1w: 0,
                }),
    {
        let registry = Registry::from_pairs(pairs);
        let view = SortedView::recompute(&registry);
        StockManager { registry, view, avg_change: 0 }
    }

    /// Tracks one more stock and returns its handle; the view is rebuilt at
    /// once, as on every membership change.
    pub fn create(&mut self, ticker: String, name: String) -> (id: u64)
        requires
            old(self).wf(),
            old(self).registry.next_id < u64::MAX,
        ensures
            final(self).wf(),
            id == old(self).registry.next_id,
            final(self).registry.next_id == old(self).registry.next_id + 1,
            final(self).registry.entries@ == old(self).registry.entries@.push(
                (Stock {
                    id,
                    ticker,
                    name,
                    price_cents: 0,
                    pct_change_1d: 0,
                    pct_change_1w: 0,
                }),
            ),
            final(self).avg_change == old(self).avg_change,
    {
        let id = self.registry.create(ticker, name);
        self.view = SortedView::recompute(&self.registry);
        id
    }

    /// Untracks the stock at a registry position; the view is rebuilt at
    /// once. The caller saves the remaining pairs afterwards.
    pub fn remove(&mut self, pos: usize)
        requires
            old(self).wf(),
            pos < old(self).registry.entries@.len(),
        ensures
            final(self).wf(),
            final(self).registry.entries@ == old(self).registry.entries@.remove(pos as int),
            final(self).registry.next_id == old(self).registry.next_id,
            final(self).avg_change == old(self).avg_change,
            !final(self).registry.contains_id(old(self).registry.entries@[pos as int].id),
    {
        self.registry.remove(pos);
        self.view = SortedView::recompute(&self.registry);
    }

    /// Untracks the stock shown at a ranked position: the row the user acted
    /// on, mapped back to its registry entry.
    pub fn remove_ranked(&mut self, p: usize)
        requires
            old(self).wf(),
            p < old(self).view.order@.len(),
        ensures
            final(self).wf(),
            final(self).registry.entries@ == old(self).registry.entries@.remove(
                old(self).view.order@[p as int] as int,
            ),
            final(self).registry.next_id == old(self).registry.next_id,
            final(self).avg_change == old(self).avg_change,
    {
        let pos = self.view.registry_pos(p);
        self.remove(pos);
    }

    /// The handles to fetch this cycle: a snapshot of the current membership,
    /// in registry order. Each gets one weekly and one daily fetch.
    pub fn plan_refresh(&self) -> (ids: Vec<u64>)
        ensures
            ids@ == self.registry.ids(),
    {
        let n = self.registry.len();
        let mut ids: Vec<u64> = Vec::new();
        let mut i: usize = 0;
        while i < n
            invariant
                n == self.registry.entries@.len(),
                i <= n,
                ids@.len() == i,
                forall|j: int|
                    0 <= j < i ==> #[trigger] ids@[j] == self.registry.entries@[j].id,
            decreases n - i,
        {
            ids.push(self.registry.stock_at(i).id);
            i = i + 1;
        }
        proof {
            assert(ids@ =~= self.registry.ids());
        }
        ids
    }

    /// Applies one settled fetch, then rebuilds the view: the settling of a
    /// fetch is what signals the ranking to refresh.
    pub fn apply_event(&mut self, e: FetchEvent)
        requires
            old(self).wf(),
        ensures
            final(self).wf(),
            (final(self).registry.entries@, final(self).avg_change) == apply_event_spec(
                old(self).registry.entries@,
                old(self).avg_change,
                e,
            ),
            final(self).registry.next_id == old(self).registry.next_id,
    {
        match e {
            FetchEvent::WeeklyOk { id, quote, name } => {
                if let Some(i) = self.registry.index_of_id(id) {
                    let s = &self.registry.entries[i];
                    let updated = Stock {
                        id: s.id,
                        ticker: s.ticker.clone(),
                        name: (match name {
                            Some(n) => n,
                            None => s.name.clone(),
                        }),
                        price_cents: quote.last_close_cents,
                        pct_change_1d: s.pct_change_1d,
                        pct_change_1w: quote.pct_change,
                    };
                    self.registry.entries[i] = updated;
                }
            },
            FetchEvent::WeeklyFailed { id: _ } => {},
            FetchEvent::DailyOk { id, quote } => {
                if let Some(i) = self.registry.index_of_id(id) {
                    let s = &self.registry.entries[i];
                    let updated = Stock {
                        id: s.id,
                        ticker: s.ticker.clone(),
                        name: s.name.clone(),
                        price_cents: quote.last_close_cents,
                        pct_change_1d: quote.pct_change,
                        pct_change_1w: s.pct_change_1w,
                    };
                    self.registry.entries[i] = updated;
                }
                self.avg_change = quote.pct_change;
            },
            FetchEvent::DailyFailed { id: _ } => {},
        }
        self.view = SortedView::recompute(&self.registry);
    }

    /// Applies a whole batch of settled fetches, in order: a refresh cycle
    /// whose fetches have all come back, as one call. The outcome is exactly
    /// the fold the laws above speak about.
    pub fn apply_events(&mut self, events: Vec<FetchEvent>)
        requires
            old(self).wf(),
        ensures
            final(self).wf(),
            (final(self).registry.entries@, final(self).avg_change) == run_events(
                old(self).registry.entries@,
                old(self).avg_change,
                events@,
            ),
            final(self).registry.next_id == old(self).registry.next_id,
    {
        let ghost goal = run_events(old(self).registry.entries@, old(self).avg_change, events@);
        let mut evs = events;
        while evs.len() > 0
            invariant
                self.wf(),
                goal == run_events(self.registry.entries@, self.avg_change, evs@),
                self.registry.next_id == old(self).registry.next_id,
            decreases evs@.len(),
        {
            let ghost before = evs@;
            let e = evs.remove(0);
            proof {
                assert(evs@ =~= before.drop_first());
            }
            self.apply_event(e);
        }
    }

    /// The status query other processes see: computed from the aggregate
    /// scalar alone, side-effect-free.
    pub fn status_json(&self) -> (r: String)
        ensures
            r@ == crate::publisher::status_payload(self.avg_change as int),
    {
        crate::publisher::status_json_payload(self.avg_change)
    }
}

} // verus!
