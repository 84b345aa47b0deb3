//! Readings of the current UTC time (through chrono).

use vstd::prelude::*;

use chrono::{DateTime, Datelike, Utc};

verus! {

/// `Utc::now()` read as (calendar year, month). The month is documented by
/// chrono's `Datelike::month` to lie in 1..=12; nothing more is claimed,
/// since the value depends on the clock.
#[verifier::external_body]
pub fn utc_now_year_month() -> (r: (i32, u32))
    ensures
        1 <= r.1 <= 12,
{
    let now = Utc::now();
    (now.year(), now.month())
}

/// The text that chrono's `DateTime::from_timestamp(secs, 0)` formats with
/// "%B %-d, %Y at %-I:%M %p UTC" (for example "June 15, 2025 at 3:05 PM
/// UTC"); `None` when chrono has no instant `secs` seconds after the Unix
/// epoch.
pub uninterp spec fn timestamp_text(secs: i64) -> Option<Seq<char>>;

/// `t` ends with " UTC".
pub open spec fn utc_stamped(t: Seq<char>) -> bool {
    t.len() >= 4 && t.subrange(t.len() - 4, t.len() as int) == " UTC"@
}

/// `Utc::now()` as whole seconds since the Unix epoch (`DateTime::timestamp`).
/// The value depends on the clock; what is claimed holds of every reading:
/// chrono documents that `DateTime::from_timestamp` round-trips with
/// `timestamp`, so the instant read has a text.
#[verifier::external_body]
pub fn utc_now_secs() -> (secs: i64)
    ensures
        timestamp_text(secs) is Some,
{
    Utc::now().timestamp()
}

/// `DateTime::from_timestamp(secs, 0)` formatted with
/// "%B %-d, %Y at %-I:%M %p UTC": the result is the name `timestamp_text`
/// of `secs`, and (the format ending in a literal " UTC") a text that ends
/// with " UTC".
#[verifier::external_body]
pub(crate) fn format_timestamp(secs: i64) -> (r: Option<String>)
    ensures
        match r {
            Some(t) => timestamp_text(secs) == Some(t@) && utc_stamped(t@),
            None => timestamp_text(secs) is None,
        },
{
    match DateTime::from_timestamp(secs, 0) {
        Some(d) => Some(d.format("%B %-d, %Y at %-I:%M %p UTC").to_string()),
        None => None,
    }
}

} // verus!
