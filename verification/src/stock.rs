//! A tracked instrument and the scaled quantities it carries.

use vstd::prelude::*;

verus! {

/// One tracked instrument.
///
/// `id` is a handle assigned by the registry when the stock is created; it
/// never changes and is never reused, so an in-flight fetch can name its
/// target even after the stock has been removed. Percentage changes are in
/// hundredths of a percent, the price in cents.
pub struct Stock {
    pub id: u64,
    pub ticker: String,
    pub name: String,
    pub price_cents: i64,
    pub pct_change_1d: i64,
    pub pct_change_1w: i64,
}

/// The display name a stock carries until a fetch or a search selection
/// provides a real one.
pub fn placeholder_name() -> (r: String)
    ensures
        r@ == "?"@,
{
    String::from_str("?")
}

impl Stock {
    /// A freshly tracked stock: no price and no changes known yet.
    pub fn new(id: u64, ticker: String, name: String) -> (s: Stock)
        ensures
            s == (Stock {
                id,
                ticker,
                name,
                price_cents: 0,
                pct_change_1d: 0,
                pct_change_1w: 0,
            }),
    {
        Stock { id, ticker, name, price_cents: 0, pct_change_1d: 0, pct_change_1w: 0 }
    }
}

} // verus!
