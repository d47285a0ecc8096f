//! Wall-clock text: RFC 3339 rendering of UTC timestamps.

use vstd::prelude::*;

verus! {

/// Seconds-since-epoch values safely inside chrono's documented datetime
/// range (its limit lies about 262,000 years from the common era; this bound
/// stays about 253,000 years from it).
pub open spec fn rfc3339_representable(secs: int) -> bool {
    -8_000_000_000_000 <= secs <= 8_000_000_000_000
}

/// The RFC 3339 text of a UTC timestamp, a function of the seconds alone.
pub uninterp spec fn rfc3339_utc(secs: int) -> Seq<char>;

/// Relies on chrono's `TimeZone::timestamp_opt` on `Utc` and
/// `DateTime::to_rfc3339`: for an in-range number of seconds `timestamp_opt`
/// returns `Single` (so the unwrap cannot panic), and the rendered text
/// depends on the seconds alone.
#[verifier::external_body]
pub(crate) fn utc_seconds_rfc3339(secs: i64) -> (r: String)
    requires
        rfc3339_representable(secs as int),
    ensures
        r@ == rfc3339_utc(secs as int),
{
    chrono::TimeZone::timestamp_opt(&chrono::Utc, secs, 0).unwrap().to_rfc3339()
}

} // verus!
