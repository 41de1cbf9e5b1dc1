//! Time at the edges: the current unix time for scrape stamps, and the
//! fixed-offset (UTC+9) rendering of a snapshot's freshness timestamp that
//! outbound messages carry.

use vstd::prelude::*;

verus! {

/// Timestamps this module renders: a conservative band well inside the range
/// chrono's fixed-offset calendar arithmetic accepts.
pub open spec fn ts_renderable(ts: int) -> bool {
    -8000000000000 <= ts <= 8000000000000
}

/// Relies on `std::time::SystemTime::now` and
/// `SystemTime::duration_since(UNIX_EPOCH)`: seconds since the epoch. The
/// clock decides the value, so nothing is promised of it; a clock that reads
/// before the epoch panics here rather than stamping snapshots nonsense.
#[verifier::external_body]
pub fn get_now_in_sec() -> i64 {
    let now = std::time::SystemTime::now();
    let duration = now.duration_since(std::time::UNIX_EPOCH).expect("back to the future");
    duration.as_secs() as i64
}

/// What chrono renders for a timestamp at UTC+9 under
/// `%Y/%m/%d %H:%M:%S %Z`: a function of the timestamp alone.
pub uninterp spec fn jst_datetime_of(ts: int) -> Seq<char>;

/// Relies on `chrono::FixedOffset::east_opt`, `TimeZone::timestamp_opt` and
/// `DateTime::format`: rendering a timestamp at the fixed offset UTC+9
/// depends on the timestamp alone, and `timestamp_opt` is single-valued on
/// the in-range seconds the caller is held to.
#[verifier::external_body]
fn format_jst(ts: i64) -> (r: String)
    requires
        ts_renderable(ts as int),
    ensures
        r@ == jst_datetime_of(ts as int),
{
    let offset = chrono::FixedOffset::east_opt(9 * 3600).unwrap();
    let date = chrono::TimeZone::timestamp_opt(&offset, ts, 0).unwrap();
    format!("{}", date.format("%Y/%m/%d %H:%M:%S %Z"))
}

/// Renders a timestamp at UTC+9, or nothing where it lies outside the band
/// the calendar arithmetic is trusted on.
pub fn render_jst(ts: i64) -> (r: Option<String>)
    ensures
        r is Some <==> ts_renderable(ts as int),
        r matches Some(s) ==> s@ == jst_datetime_of(ts as int),
{
    if -8000000000000 <= ts && ts <= 8000000000000 {
        Some(format_jst(ts))
    } else {
        None
    }
}

} // verus!
