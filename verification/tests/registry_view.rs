//! The registry and its ranked view: membership, ordering, stability.

use stockfin::registry::Registry;
use stockfin::scheduler::{FetchEvent, RangeResponse, StockManager};
use stockfin::view::SortedView;

fn quote(pct: i64) -> RangeResponse {
    RangeResponse { prev_close_cents: 10000, last_close_cents: 10000 + pct, pct_change: pct }
}

fn ranked_tickers(m: &StockManager) -> Vec<String> {
    let mut out = Vec::new();
    let mut p = 0;
    while p < m.view.len() {
        out.push(m.view.stock_at(&m.registry, p).ticker.clone());
        p += 1;
    }
    out
}

#[test]
fn create_appends_in_order() {
    let mut r = Registry::new();
    let a = r.create("AAPL".to_string(), "Apple".to_string());
    let b = r.create("MSFT".to_string(), "Microsoft".to_string());
    assert_eq!(r.len(), 2);
    assert_ne!(a, b);
    assert_eq!(r.stock_at(0).ticker, "AAPL");
    assert_eq!(r.stock_at(1).ticker, "MSFT");
    assert_eq!(r.stock_at(0).price_cents, 0);
    assert_eq!(r.stock_at(0).pct_change_1d, 0);
}

#[test]
fn duplicate_tickers_are_admitted() {
    let mut r = Registry::new();
    let a = r.create("AAPL".to_string(), "Apple".to_string());
    let b = r.create("AAPL".to_string(), "Apple".to_string());
    assert_eq!(r.len(), 2);
    assert_ne!(a, b);
}

#[test]
fn remove_keeps_order_and_retires_the_handle() {
    let mut r = Registry::new();
    r.create("A".to_string(), "a".to_string());
    let b = r.create("B".to_string(), "b".to_string());
    r.create("C".to_string(), "c".to_string());
    r.remove(1);
    assert_eq!(r.len(), 2);
    assert_eq!(r.stock_at(0).ticker, "A");
    assert_eq!(r.stock_at(1).ticker, "C");
    assert_eq!(r.index_of_id(b), None);
    // a later create never reuses the removed handle
    let d = r.create("D".to_string(), "d".to_string());
    assert_ne!(d, b);
}

#[test]
fn ticker_pairs_snapshot_current_order() {
    let mut r = Registry::new();
    r.create("A".to_string(), "a".to_string());
    r.create("B".to_string(), "b".to_string());
    assert_eq!(
        r.ticker_pairs(),
        vec![("A".to_string(), "a".to_string()), ("B".to_string(), "b".to_string())]
    );
}

#[test]
fn from_pairs_seeds_in_list_order() {
    let seed = vec![
        ("AAPL".to_string(), "Apple".to_string()),
        ("MSFT".to_string(), "Microsoft".to_string()),
    ];
    let r = Registry::from_pairs(&seed);
    assert_eq!(r.len(), 2);
    assert_eq!(r.stock_at(0).ticker, "AAPL");
    assert_eq!(r.stock_at(1).name, "Microsoft");
    assert_eq!(r.ticker_pairs(), seed);
}

#[test]
fn view_ranks_by_daily_change_descending() {
    let mut m = StockManager::new();
    let a = m.create("A".to_string(), "a".to_string());
    let b = m.create("B".to_string(), "b".to_string());
    let c = m.create("C".to_string(), "c".to_string());
    m.apply_event(FetchEvent::DailyOk { id: a, quote: quote(100) });
    m.apply_event(FetchEvent::DailyOk { id: b, quote: quote(-50) });
    m.apply_event(FetchEvent::DailyOk { id: c, quote: quote(700) });
    assert_eq!(ranked_tickers(&m), vec!["C", "A", "B"]);
}

#[test]
fn view_membership_always_equals_registry() {
    let mut m = StockManager::new();
    let a = m.create("A".to_string(), "a".to_string());
    let b = m.create("B".to_string(), "b".to_string());
    assert_eq!(m.view.len(), 2);
    m.apply_event(FetchEvent::DailyOk { id: b, quote: quote(500) });
    assert_eq!(m.view.len(), 2);
    let mut seen = ranked_tickers(&m);
    seen.sort();
    assert_eq!(seen, vec!["A", "B"]);
    m.remove(0);
    assert_eq!(m.view.len(), 1);
    assert_eq!(ranked_tickers(&m), vec!["B"]);
    let _ = a;
}

#[test]
fn equal_keys_keep_registry_order() {
    let mut m = StockManager::new();
    let a = m.create("A".to_string(), "a".to_string());
    let b = m.create("B".to_string(), "b".to_string());
    let c = m.create("C".to_string(), "c".to_string());
    m.apply_event(FetchEvent::DailyOk { id: a, quote: quote(100) });
    m.apply_event(FetchEvent::DailyOk { id: b, quote: quote(300) });
    m.apply_event(FetchEvent::DailyOk { id: c, quote: quote(100) });
    // B first, then A and C tied at 100 in registry order
    assert_eq!(ranked_tickers(&m), vec!["B", "A", "C"]);
}

#[test]
fn fresh_stocks_rank_stably_at_zero() {
    let mut m = StockManager::new();
    m.create("A".to_string(), "a".to_string());
    m.create("B".to_string(), "b".to_string());
    m.create("C".to_string(), "c".to_string());
    assert_eq!(ranked_tickers(&m), vec!["A", "B", "C"]);
}

#[test]
fn reverse_lookup_points_back_into_the_registry() {
    let mut m = StockManager::new();
    let a = m.create("A".to_string(), "a".to_string());
    let b = m.create("B".to_string(), "b".to_string());
    m.apply_event(FetchEvent::DailyOk { id: b, quote: quote(900) });
    // B ranks first but lives at registry position 1
    assert_eq!(m.view.registry_pos(0), 1);
    assert_eq!(m.view.registry_pos(1), 0);
    assert_eq!(m.registry.index_of_id(b), Some(1));
    assert_eq!(m.registry.index_of_id(a), Some(0));
}

#[test]
fn remove_ranked_removes_the_shown_row() {
    let mut m = StockManager::new();
    m.create("A".to_string(), "a".to_string());
    let b = m.create("B".to_string(), "b".to_string());
    m.apply_event(FetchEvent::DailyOk { id: b, quote: quote(900) });
    // the top row is B; removing it leaves A
    m.remove_ranked(0);
    assert_eq!(m.registry.len(), 1);
    assert_eq!(m.registry.stock_at(0).ticker, "A");
}

#[test]
fn snapshot_copies_the_current_sequence() {
    let mut r = Registry::new();
    let a = r.create("A".to_string(), "a".to_string());
    r.create("B".to_string(), "b".to_string());
    let snap = r.snapshot();
    assert_eq!(snap.len(), 2);
    assert_eq!(snap[0].id, a);
    assert_eq!(snap[0].ticker, "A");
    assert_eq!(snap[1].name, "b");
    // a copy: removing from the registry leaves the snapshot alone
    r.remove(0);
    assert_eq!(snap.len(), 2);
    assert_eq!(r.len(), 1);
}

#[test]
fn new_stock_starts_at_zero() {
    let s = stockfin::stock::Stock::new(7, "X".to_string(), "x".to_string());
    assert_eq!(s.id, 7);
    assert_eq!(s.price_cents, 0);
    assert_eq!(s.pct_change_1d, 0);
    assert_eq!(s.pct_change_1w, 0);
}

#[test]
fn standalone_recompute_matches_stored_view() {
    let mut m = StockManager::new();
    let a = m.create("A".to_string(), "a".to_string());
    m.apply_event(FetchEvent::DailyOk { id: a, quote: quote(-100) });
    let v = SortedView::recompute(&m.registry);
    assert_eq!(v.len(), m.view.len());
    assert_eq!(v.registry_pos(0), m.view.registry_pos(0));
}
