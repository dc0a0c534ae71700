//! The refresh engine under arbitrary settle orders: per-stock outcomes, the
//! last-write-wins aggregate, and removal racing an outstanding fetch.

use stockfin::scheduler::{FetchEvent, RangeResponse, StockManager};

fn quote(pct: i64, close: i64) -> RangeResponse {
    RangeResponse { prev_close_cents: 10000, last_close_cents: close, pct_change: pct }
}

fn weekly(id: u64, pct: i64, close: i64) -> FetchEvent {
    FetchEvent::WeeklyOk { id, quote: quote(pct, close), name: None }
}

fn daily(id: u64, pct: i64, close: i64) -> FetchEvent {
    FetchEvent::DailyOk { id, quote: quote(pct, close) }
}

fn seeded(n: usize) -> (StockManager, Vec<u64>) {
    let mut m = StockManager::new();
    let mut ids = Vec::new();
    for i in 0..n {
        ids.push(m.create(format!("T{i}"), format!("Stock {i}")));
    }
    (m, ids)
}

/// A cycle's six fetches for three stocks, settled in one fixed order.
fn cycle_events(ids: &[u64]) -> Vec<FetchEvent> {
    vec![
        weekly(ids[0], 11, 10011),
        daily(ids[0], 120, 10120),
        weekly(ids[1], -22, 9978),
        daily(ids[1], -340, 9660),
        weekly(ids[2], 33, 10033),
        daily(ids[2], 560, 10560),
    ]
}

#[test]
fn each_stock_shows_its_own_fetch() {
    let (mut m, ids) = seeded(3);
    m.apply_events(cycle_events(&ids));
    for (i, &id) in ids.iter().enumerate() {
        let pos = m.registry.index_of_id(id).unwrap();
        let s = m.registry.stock_at(pos);
        let (w, d) = [(11, 120), (-22, -340), (33, 560)][i];
        assert_eq!(s.pct_change_1w, w);
        assert_eq!(s.pct_change_1d, d);
    }
}

#[test]
fn outcome_is_the_same_under_any_interleaving() {
    // The same six fetches settling in several scrambled orders: every
    // stock's fields land identically; only the aggregate follows the order.
    let mut orders: Vec<Vec<usize>> = vec![
        vec![5, 4, 3, 2, 1, 0],
        vec![1, 3, 5, 0, 2, 4],
        vec![2, 0, 5, 3, 4, 1],
    ];
    // a simple linear-congruential shuffle for a few more orders
    let mut state: u64 = 0x2545F4914F6CDD1D;
    for _ in 0..5 {
        let mut order: Vec<usize> = (0..6).collect();
        for i in (1..6).rev() {
            state = state.wrapping_mul(6364136223846793005).wrapping_add(1442695040888963407);
            let j = (state >> 33) as usize % (i + 1);
            order.swap(i, j);
        }
        orders.push(order);
    }

    for order in orders {
        let (mut m, ids2) = seeded(3);
        let mut events: Vec<FetchEvent> = Vec::new();
        for &k in &order {
            // rebuild the k-th event rather than clone it
            let mut rebuilt = cycle_events(&ids2);
            events.push(rebuilt.swap_remove(k));
        }
        let last_daily_idx = order
            .iter()
            .rev()
            .find(|&&k| k % 2 == 1)
            .copied()
            .unwrap();
        m.apply_events(events);
        for (i, &id) in ids2.iter().enumerate() {
            let pos = m.registry.index_of_id(id).unwrap();
            let s = m.registry.stock_at(pos);
            let (w, d) = [(11, 120), (-22, -340), (33, 560)][i];
            assert_eq!(s.pct_change_1w, w, "order {order:?}");
            assert_eq!(s.pct_change_1d, d, "order {order:?}");
        }
        // the aggregate equals the daily change of whichever daily settled last
        let expected = [120, -340, 560][last_daily_idx / 2];
        assert_eq!(m.avg_change, expected, "order {order:?}");
    }
}

#[test]
fn aggregate_is_last_write_not_mean() {
    let (mut m, ids) = seeded(2);
    m.apply_event(daily(ids[0], 100, 10100));
    m.apply_event(daily(ids[1], 300, 10300));
    // 300, not the mean 200
    assert_eq!(m.avg_change, 300);
    m.apply_event(daily(ids[0], -100, 9900));
    assert_eq!(m.avg_change, -100);
}

#[test]
fn failed_fetches_change_nothing_but_still_settle() {
    let (mut m, ids) = seeded(1);
    m.apply_event(daily(ids[0], 250, 10250));
    m.apply_event(FetchEvent::DailyFailed { id: ids[0] });
    m.apply_event(FetchEvent::WeeklyFailed { id: ids[0] });
    let s = m.registry.stock_at(0);
    assert_eq!(s.pct_change_1d, 250);
    assert_eq!(m.avg_change, 250);
}

#[test]
fn price_goes_to_whichever_fetch_settles_last() {
    let (mut m, ids) = seeded(1);
    m.apply_event(daily(ids[0], 120, 10120));
    m.apply_event(weekly(ids[0], 11, 10011));
    assert_eq!(m.registry.stock_at(0).price_cents, 10011);

    let (mut m2, ids2) = seeded(1);
    m2.apply_event(weekly(ids2[0], 11, 10011));
    m2.apply_event(daily(ids2[0], 120, 10120));
    assert_eq!(m2.registry.stock_at(0).price_cents, 10120);
}

#[test]
fn weekly_name_update_lands() {
    let mut m = StockManager::new();
    let ids = vec![m.create("T0".to_string(), stockfin::stock::placeholder_name())];
    assert_eq!(m.registry.stock_at(0).name, "?");
    m.apply_event(FetchEvent::WeeklyOk {
        id: ids[0],
        quote: quote(10, 10010),
        name: Some("Proper Name".to_string()),
    });
    assert_eq!(m.registry.stock_at(0).name, "Proper Name");
}

#[test]
fn removal_wins_over_an_outstanding_fetch() {
    let (mut m, ids) = seeded(2);
    // the fetch for stock 0 is outstanding when the user removes it
    m.remove(0);
    assert_eq!(m.registry.len(), 1);
    assert_eq!(m.registry.index_of_id(ids[0]), None);

    // the fetch settles later: no panic, nothing reappears
    m.apply_event(daily(ids[0], 990, 10990));
    m.apply_event(weekly(ids[0], 880, 10880));
    assert_eq!(m.registry.len(), 1);
    assert_eq!(m.registry.index_of_id(ids[0]), None);
    assert_eq!(m.view.len(), 1);
    assert_eq!(m.registry.stock_at(0).ticker, "T1");
    assert_eq!(m.registry.stock_at(0).pct_change_1d, 0);

    // the detached daily still wrote the aggregate, as it does for a live one
    assert_eq!(m.avg_change, 990);
}

#[test]
fn plan_refresh_snapshots_the_membership() {
    let (mut m, ids) = seeded(3);
    assert_eq!(m.plan_refresh(), ids);
    m.remove(1);
    assert_eq!(m.plan_refresh(), vec![ids[0], ids[2]]);
}
