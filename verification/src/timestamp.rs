//! Timestamps in file header lines, read and written by chrono.
use vstd::prelude::*;
use chrono::{Datelike, Timelike};
use crate::ast::Timestamp;

verus! {

/// The layout of a timestamp with fractional seconds, as GNU diff writes it.
pub open spec fn fraction_layout() -> Seq<char> {
    "%F %T%.f %z"@
}

/// The layout of a timestamp with whole seconds.
pub open spec fn seconds_layout() -> Seq<char> {
    "%F %T %z"@
}

/// What chrono's `DateTime::parse_from_str` gives for a text and a layout:
/// the date and time, or nothing where the text does not match.
pub uninterp spec fn parsed_timestamp(text: Seq<char>, layout: Seq<char>) -> Option<Timestamp>;

/// What chrono writes for a timestamp in a layout, or nothing where the fields
/// of the timestamp do not make a date and time that chrono can hold.
pub uninterp spec fn formatted_timestamp(value: Timestamp, layout: Seq<char>) -> Option<Seq<char>>;

/// The instant of `t`: whole seconds in UTC since a fixed epoch, and the nanoseconds.
pub fn instant_of(t: &Timestamp) -> (r: (i128, u32))
    ensures
        r.0 == t.instant().0,
        r.1 == t.instant().1,
{
    let before_march: u64 = if t.month <= 2 { 1 } else { 0 };
    let shifted: i64 = t.year as i64 + 2147484000;
    let y: u64 = shifted as u64 - before_march;
    let era: u64 = y / 400;
    let yoe: u64 = y % 400;
    let mp: u64 = (t.month as u64 + 9) % 12;
    let doy: u64 = (153 * mp + 2) / 5 + t.day as u64;
    let days: u64 = era * 146097 + yoe * 365 + yoe / 4 - yoe / 100 + doy;
    let secs: i128 = days as i128 * 86400 + t.hour as i128 * 3600 + t.minute as i128 * 60
        + t.second as i128 - t.offset_seconds as i128;
    (secs, t.nanosecond)
}

/// Reads a timestamp from `text` in `layout`.
/// Calls chrono's `DateTime::parse_from_str` and converts the result to the
/// fields of a `Timestamp`; claims only that the result is the named function
/// of the two arguments.
#[verifier::external_body]
pub(crate) fn parse_timestamp(text: &str, layout: &str) -> (res: Option<Timestamp>)
    ensures
        res == parsed_timestamp(text@, layout@),
{
    chrono::DateTime::parse_from_str(text, layout).ok().map(|t| Timestamp {
        year: t.year(), month: t.month(), day: t.day(), hour: t.hour(), minute: t.minute(),
        second: t.second(), nanosecond: t.nanosecond(), offset_seconds: t.offset().local_minus_utc(),
    })
}

/// Writes `value` in `layout`.
/// Calls chrono's `DelayedFormat` (through `DateTime::format`) on the date and
/// time that the fields make; claims that the result is the named function of
/// the two arguments, and that there is a result for a valid timestamp: chrono
/// builds the offset (`FixedOffset::east_opt`), the date (`NaiveDate::from_ymd_opt`)
/// and the time (`and_hms_nano_opt`) from such fields, and moving a date well
/// inside its range by less than a day (`from_local_datetime`) cannot leave the
/// range. The layout is one that chrono accepts.
#[verifier::external_body]
pub(crate) fn format_timestamp(value: &Timestamp, layout: &str) -> (res: Option<String>)
    requires
        layout@ == fraction_layout(),
    ensures
        match res {
            Some(t) => formatted_timestamp(*value, layout@) == Some(t@),
            None => formatted_timestamp(*value, layout@) is None,
        },
        value.is_valid() ==> res is Some,
{
    let offset = chrono::FixedOffset::east_opt(value.offset_seconds)?;
    let local = chrono::NaiveDate::from_ymd_opt(value.year, value.month, value.day)?
        .and_hms_nano_opt(value.hour, value.minute, value.second, value.nanosecond)?;
    let stamp = chrono::TimeZone::from_local_datetime(&offset, &local).single()?;
    Some(stamp.format(layout).to_string())
}

} // verus!
