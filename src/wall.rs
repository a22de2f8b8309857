//! Wall-clock instants as plain calendar fields, and their rendering through
//! chrono's strftime-like formatter.

use chrono::{Datelike, TimeZone, Timelike};
use vstd::prelude::*;

verus! {

/// A local wall-clock reading: calendar date, time of day, and the offset of
/// the local time from UTC, in seconds.
#[derive(Clone, Copy, Debug, PartialEq, Eq)]
pub struct WallTime {
    pub year: i32,
    pub month: u32,
    pub day: u32,
    pub hour: u32,
    pub minute: u32,
    pub second: u32,
    pub nano: u32,
    pub offset: i32,
}

/// What chrono renders for a format specification at an instant, or `None`
/// where the instant is not a valid date and time or the specification holds
/// a directive chrono cannot render.
pub uninterp spec fn chrono_format(fmt: Seq<char>, t: WallTime) -> Option<Seq<char>>;

/// The rendering of `fmt` at `t`, with an unrenderable specification or
/// instant rendering as empty text.
pub open spec fn rendered(fmt: Seq<char>, t: WallTime) -> Seq<char> {
    match chrono_format(fmt, t) {
        Some(s) => s,
        None => Seq::empty(),
    }
}

/// Relies on chrono's `FixedOffset::east_opt`, `NaiveDate::from_ymd_opt`,
/// `NaiveDate::and_hms_nano_opt`, `TimeZone::from_local_datetime` and
/// `DelayedFormat::write_to`: the text depends on the format and the instant
/// alone, and every failure along the way is reported as `None`.
#[verifier::external_body]
fn chrono_render(fmt: &Vec<char>, t: WallTime) -> (r: Option<Vec<char>>)
    ensures
        match r {
            Some(v) => chrono_format(fmt@, t) == Some(v@),
            None => chrono_format(fmt@, t) is None,
        },
{
    let fmt: String = fmt.iter().collect();
    let naive = match chrono::NaiveDate::from_ymd_opt(t.year, t.month, t.day) {
        Some(d) => d.and_hms_nano_opt(t.hour, t.minute, t.second, t.nano),
        None => None,
    };
    let dt = match (naive, chrono::FixedOffset::east_opt(t.offset)) {
        (Some(n), Some(o)) => o.from_local_datetime(&n).single(),
        _ => None,
    };
    let mut out = String::new();
    match dt {
        Some(d) if d.format(&fmt).write_to(&mut out).is_ok() => Some(out.chars().collect()),
        _ => None,
    }
}

/// Renders `fmt` at `t`; a specification or instant that chrono rejects
/// renders as empty text.
pub fn render(fmt: &Vec<char>, t: WallTime) -> (r: Vec<char>)
    ensures
        r@ == rendered(fmt@, t),
{
    match chrono_render(fmt, t) {
        Some(v) => v,
        None => Vec::new(),
    }
}

/// Whether a reading has the field ranges of a clock reading: a month of
/// the year, a day of the month, and a time of day.
pub open spec fn is_clock_reading(t: WallTime) -> bool {
    &&& 1 <= t.month <= 12
    &&& 1 <= t.day <= 31
    &&& t.hour < 24
    &&& t.minute < 60
    &&& t.second < 60
}

/// Relies on `std::time::SystemTime::now` and chrono's
/// `From<SystemTime> for DateTime<Local>`, with chrono's `Datelike` and
/// `Timelike` accessors: the current local date and time, split into its
/// calendar fields, and the local offset from UTC. Readings before 1970 are
/// converted like any other. chrono still panics when the local zone data
/// cannot be used, or when the system clock lies beyond the roughly 262,000
/// years around year zero that chrono represents.
#[verifier::external_body]
pub(crate) fn local_now() -> (r: WallTime)
    ensures
        is_clock_reading(r),
{
    let n = chrono::DateTime::<chrono::Local>::from(std::time::SystemTime::now());
    WallTime {
        year: n.year(),
        month: n.month(),
        day: n.day(),
        hour: n.hour(),
        minute: n.minute(),
        second: n.second(),
        nano: n.nanosecond(),
        offset: n.offset().local_minus_utc(),
    }
}

} // verus!
