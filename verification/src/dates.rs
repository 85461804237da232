//! Date-and-time support: parsing RFC 3339 timestamps and formatting
//! instants back to RFC 3339 text.

use vstd::prelude::*;

verus! {

/// What parsing a piece of text as an RFC 3339 timestamp yields: `None` for
/// text that is no such timestamp, otherwise the instant in milliseconds
/// since the Unix epoch together with the text's UTC offset in seconds.
pub uninterp spec fn date_time_parse(s: Seq<char>) -> Option<(i64, i32)>;

/// Relies on chrono's `DateTime::parse_from_rfc3339`, and on
/// `timestamp_millis` and `offset().local_minus_utc()` of the parsed value:
/// parsing is a pure function of the text, and the two accessors read the
/// parsed instant and offset out of it.
#[verifier::external_body]
pub(crate) fn parse_rfc3339(s: &str) -> (r: Option<(i64, i32)>)
    ensures
        r == date_time_parse(s@),
{
    match chrono::DateTime::parse_from_rfc3339(s) {
        Ok(dt) => Some((dt.timestamp_millis(), dt.offset().local_minus_utc())),
        Err(_) => None,
    }
}

/// The RFC 3339 rendering (UTC, whole seconds, `Z` suffix) of an instant
/// given in milliseconds since the Unix epoch.
pub uninterp spec fn rfc3339_utc_string(millis: i64) -> Seq<char>;

/// Relies on chrono's `DateTime::<Utc>::from_timestamp_millis` and
/// `to_rfc3339_opts(SecondsFormat::Secs, true)`: formatting an instant in
/// UTC depends on the instant alone. Instants outside chrono's representable
/// range (roughly 262000 years either side of the epoch) are excluded, since
/// `from_timestamp_millis` has no value for them.
#[verifier::external_body]
pub(crate) fn format_rfc3339_utc(millis: i64) -> (r: String)
    requires
        -8_000_000_000_000_000 <= millis <= 8_000_000_000_000_000,
    ensures
        r@ == rfc3339_utc_string(millis),
{
    chrono::DateTime::<chrono::Utc>::from_timestamp_millis(millis)
        .unwrap()
        .to_rfc3339_opts(chrono::SecondsFormat::Secs, true)
}

} // verus!
