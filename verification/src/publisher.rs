//! The status publisher's payload: the classification of the aggregate
//! scalar and the JSON object served to other local processes.
//!
//! Classification follows the plain three-way sign split: a positive
//! percentage is `bullish`, a negative one `bearish`, exactly zero `neutral`.
//! (An alternative policy with fixed five-percent thresholds has been in use
//! at times; this crate commits to the sign split.)
//!
//! The payload is a JSON object with exactly the four string fields `text`,
//! `alt`, `class` and `tooltip`, keys in lexicographic order, no whitespace.
//! Every character that can appear in it is safe inside a JSON string, so the
//! payload needs no escaping.

use vstd::prelude::*;
use vstd::math::abs;
use crate::text::digit_char;
use crate::text::dec_digits;
use crate::text::push_char;
use crate::text::push_dec_digits;

verus! {

/// The classification of a scalar in hundredths of a percent.
pub open spec fn classification(v: int) -> Seq<char> {
    if v > 0 {
        "bullish"@
    } else if v < 0 {
        "bearish"@
    } else {
        "neutral"@
    }
}

/// A magnitude in hundredths of a percent, written as a percentage with two
/// decimals and a percent sign: `1234` becomes `12.34%`.
pub open spec fn fmt_hundredths(m: nat) -> Seq<char> {
    dec_digits(m / 100) + seq!['.', digit_char((m % 100) / 10), digit_char(m % 10), '%']
}

/// A scalar as a signed percentage, the sign always written: `+0.00%` for
/// zero.
pub open spec fn fmt_signed_pct(v: int) -> Seq<char> {
    (if v >= 0 {
        seq!['+']
    } else {
        seq!['-']
    }) + fmt_hundredths(abs(v) as nat)
}

/// A scalar as a plain percentage: only a negative value carries its sign.
pub open spec fn fmt_plain_pct(v: int) -> Seq<char> {
    (if v >= 0 {
        Seq::<char>::empty()
    } else {
        seq!['-']
    }) + fmt_hundredths(abs(v) as nat)
}

/// The whole payload for a scalar.
pub open spec fn status_payload(v: int) -> Seq<char> {
    "{\"alt\":\""@ + classification(v) + "\",\"class\":\""@ + classification(v) + "\",\"text\":\""@
        + fmt_signed_pct(v) + "\",\"tooltip\":\"Daily average: "@ + fmt_plain_pct(v) + "\"}"@
}

/// The classification, as served in the `alt` and `class` fields.
pub fn classify(v: i64) -> (r: &'static str)
    ensures
        r@ == classification(v as int),
{
    if v > 0 {
        "bullish"
    } else if v < 0 {
        "bearish"
    } else {
        "neutral"
    }
}

/// The magnitude of a scalar; total, also at the type's minimum.
fn magnitude(v: i64) -> (m: u64)
    ensures
        m as int == abs(v as int),
{
    if v >= 0 {
        v as u64
    } else {
        (-(v as i128)) as u64
    }
}

/// Appends a magnitude as a percentage with two decimals.
fn push_hundredths(out: &mut String, m: u64)
    ensures
        final(out)@ == old(out)@ + fmt_hundredths(m as nat),
{
    push_dec_digits(out, m / 100);
    push_char(out, '.');
    push_char(out, (48 + ((m % 100 / 10) as u8)) as char);
    push_char(out, (48 + ((m % 10) as u8)) as char);
    push_char(out, '%');
    proof {
        assert(final(out)@ =~= old(out)@ + fmt_hundredths(m as nat));
    }
}

/// The `text` field: the percentage with an explicit sign even when zero.
pub fn format_signed_pct(v: i64) -> (r: String)
    ensures
        r@ == fmt_signed_pct(v as int),
{
    let mut out = String::new();
    if v >= 0 {
        push_char(&mut out, '+');
    } else {
        push_char(&mut out, '-');
    }
    push_hundredths(&mut out, magnitude(v));
    proof {
        assert(out@ =~= fmt_signed_pct(v as int));
    }
    out
}

/// The percentage as the tooltip writes it: no sign unless negative.
pub fn format_plain_pct(v: i64) -> (r: String)
    ensures
        r@ == fmt_plain_pct(v as int),
{
    let mut out = String::new();
    if v < 0 {
        push_char(&mut out, '-');
    }
    push_hundredths(&mut out, magnitude(v));
    proof {
        assert(out@ =~= fmt_plain_pct(v as int));
    }
    out
}

/// The status query's answer for a scalar: side-effect-free, and exactly the
/// four fields other processes consume.
pub fn status_json_payload(v: i64) -> (r: String)
    ensures
        r@ == status_payload(v as int),
{
    let mut out = String::from_str("{\"alt\":\"");
    out.append(classify(v));
    out.append("\",\"class\":\"");
    out.append(classify(v));
    out.append("\",\"text\":\"");
    let text = format_signed_pct(v);
    out.append(text.as_str());
    out.append("\",\"tooltip\":\"Daily average: ");
    let tooltip = format_plain_pct(v);
    out.append(tooltip.as_str());
    out.append("\"}");
    proof {
        assert(out@ =~= status_payload(v as int));
    }
    out
}

} // verus!
