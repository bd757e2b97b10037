//! Instants in UTC, and what chrono computes from them.
use vstd::prelude::*;
use chrono::{DateTime, TimeDelta, TimeZone, Timelike, Utc};

verus! {

/// An instant in UTC: whole seconds since 1970-01-01T00:00:00Z and the
/// nanoseconds past them (1_000_000_000 and more mark a leap second, as in
/// chrono).
#[derive(Clone, Copy, Debug, PartialEq, Eq, Structural)]
pub struct Timestamp {
    pub secs: i64,
    pub nanos: u32,
}

/// Whether chrono's `DateTime::<Utc>::from_timestamp(secs, nanos)` gives an
/// instant: the day lies within chrono's dates, from -262143-01-01 to
/// 262142-12-31 (the seconds below are the first and last second of that
/// range), and the nanosecond part is below 10^9, or below 2 * 10^9 in the
/// last second of a minute, where chrono puts a leap second.
pub open spec fn chrono_utc_valid(secs: i64, nanos: u32) -> bool {
    &&& -8_334_601_228_800 <= secs <= 8_210_266_876_799
    &&& nanos < 2_000_000_000
    &&& (nanos < 1_000_000_000 || secs % 60 == 59)
}

/// The text that chrono's `format(fmt)` gives for the instant `(secs, nanos)`.
pub uninterp spec fn chrono_utc_format(secs: i64, nanos: u32, fmt: Seq<char>) -> Seq<char>;

/// Whether `fmt` is one of the formats the library writes times in: the GPX
/// time, and the EXIF date and time and date stamps. Each is made of plain
/// characters and the chrono specifiers `%Y`, `%m`, `%d`, `%H`, `%M`, `%S`
/// and `%.3f`.
pub open spec fn library_time_format(fmt: Seq<char>) -> bool {
    ||| fmt == crate::gpx::GPX_TIME_FORMAT@
    ||| fmt == crate::jpeg::EXIF_DATE_TIME_FORMAT@
    ||| fmt == crate::jpeg::EXIF_DATE_FORMAT@
}

/// Calls chrono's `DateTime::<Utc>::from_timestamp`, `format(fmt)` and
/// `DelayedFormat::write_to` into a `String`. The contract claims that a
/// text comes only for an instant that exists ([`chrono_utc_valid`]) and is
/// then [`chrono_utc_format`] of it, and that it does come for such an
/// instant and one of the library's formats: chrono fails only on a format
/// specifier it does not know, and every specifier of those formats is one
/// it knows. What the text holds is left to the name.
#[verifier::external_body]
pub(crate) fn format_utc(t: Timestamp, fmt: &str) -> (r: Option<String>)
    ensures
        r is Some ==> chrono_utc_valid(t.secs, t.nanos),
        r matches Some(s) ==> s@ == chrono_utc_format(t.secs, t.nanos, fmt@),
        chrono_utc_valid(t.secs, t.nanos) && library_time_format(fmt@) ==> r is Some,
{
    let d = DateTime::from_timestamp(t.secs, t.nanos)?;
    let mut text = String::new();
    match d.format(fmt).write_to(&mut text) {
        Ok(()) => Some(text),
        Err(_) => None,
    }
}

/// Calls chrono's `DateTime::<Utc>::from_timestamp` and reads `hour()`,
/// `minute()`, `second()` and `timestamp_subsec_millis()`. The contract
/// claims that the instant exists exactly when [`chrono_utc_valid`] holds,
/// and that the four numbers are the hour, minute and second of the day of
/// `secs` (in UTC, counted from midnight) and the whole milliseconds of
/// `nanos`.
#[verifier::external_body]
pub(crate) fn utc_clock(t: Timestamp) -> (r: Option<(u32, u32, u32, u32)>)
    ensures
        r.is_some() == chrono_utc_valid(t.secs, t.nanos),
        r matches Some((h, m, s, ms)) ==> {
            &&& h == (t.secs % 86400) / 3600
            &&& m == ((t.secs % 86400) / 60) % 60
            &&& s == t.secs % 60
            &&& ms == t.nanos / 1_000_000
        },
{
    match DateTime::from_timestamp(t.secs, t.nanos) {
        Some(d) => Some((d.hour(), d.minute(), d.second(), d.timestamp_subsec_millis())),
        None => None,
    }
}


/// Unix time of 1904-01-01T00:00:00Z, the QuickTime epoch.
pub const QUICKTIME_EPOCH_SECS: i64 = -2_082_844_800;

/// Calls chrono's `Utc.with_ymd_and_hms(1904, 1, 1, 0, 0, 0)`. The contract
/// claims that this instant lies 2_082_844_800 seconds before the Unix
/// epoch (24_107 days of 86_400 seconds), and that chrono represents it.
#[verifier::external_body]
pub(crate) fn quicktime_epoch() -> (r: Timestamp)
    ensures
        r == (Timestamp { secs: QUICKTIME_EPOCH_SECS, nanos: 0 }),
        chrono_utc_valid(r.secs, r.nanos),
{
    let d = Utc.with_ymd_and_hms(1904, 1, 1, 0, 0, 0).single().unwrap();
    Timestamp { secs: d.timestamp(), nanos: d.timestamp_subsec_nanos() }
}

/// The instant that chrono's `checked_add_signed` gives for `delta` whole
/// seconds after `t`, as seconds and nanoseconds: `delta` seconds later with
/// the same nanoseconds; from inside a leap second (nanoseconds of 10^9 or
/// more) a move of a nonzero number of seconds first leaves the leap second,
/// forward to the end of the minute's last second when going back, and
/// keeps the fraction.
pub open spec fn seconds_sum(t: Timestamp, delta: i64) -> (int, int) {
    if t.nanos >= 1_000_000_000 && delta != 0 {
        (t.secs + delta + (if delta < 0 { 1int } else { 0int }), t.nanos - 1_000_000_000)
    } else {
        (t.secs + delta, t.nanos as int)
    }
}

/// What adding `delta` whole seconds to `t` gives: `None` unless `t` is an
/// instant chrono can represent, `delta` seconds make a valid chrono
/// `TimeDelta` (at most `i64::MAX / 1000` either way) and the sum is an
/// instant chrono can represent.
pub open spec fn spec_add_seconds(t: Timestamp, delta: i64) -> Option<Timestamp> {
    let (secs, nanos) = seconds_sum(t, delta);
    if chrono_utc_valid(t.secs, t.nanos) && -(i64::MAX / 1000) <= delta <= i64::MAX / 1000
        && i64::MIN <= secs <= i64::MAX && chrono_utc_valid(secs as i64, nanos as u32) {
        Some(Timestamp { secs: secs as i64, nanos: nanos as u32 })
    } else {
        None
    }
}

/// Calls chrono's `TimeDelta::try_seconds` and
/// `DateTime::<Utc>::checked_add_signed`. The contract claims what chrono's
/// code does: `try_seconds` accepts at most `i64::MAX / 1000` seconds either
/// way, the time of day moves as [`seconds_sum`] says, and the date moves
/// by whole days, which succeeds exactly when the sum lies within chrono's
/// range.
#[verifier::external_body]
pub(crate) fn add_seconds(t: Timestamp, delta: i64) -> (r: Option<Timestamp>)
    ensures
        r == spec_add_seconds(t, delta),
{
    let d = DateTime::from_timestamp(t.secs, t.nanos)?;
    let sum = d.checked_add_signed(TimeDelta::try_seconds(delta)?)?;
    Some(Timestamp { secs: sum.timestamp(), nanos: sum.timestamp_subsec_nanos() })
}

/// What chrono's `DateTime::parse_from_rfc3339(s)` makes of `s`, taken to
/// UTC: the instant's whole seconds since the Unix epoch and its nanoseconds,
/// or the message of the parse error.
pub uninterp spec fn chrono_rfc3339_utc(s: Seq<char>) -> Result<(i64, u32), Seq<char>>;

/// Calls chrono's `DateTime::parse_from_rfc3339` and `with_timezone(&Utc)`.
/// The contract claims that the result is [`chrono_rfc3339_utc`] of `s`, and
/// that a parsed instant is one that chrono can represent, as is the start
/// of its second (the same date and second, nanoseconds 0).
#[verifier::external_body]
pub(crate) fn parse_rfc3339_utc(s: &str) -> (r: Result<Timestamp, String>)
    ensures
        match r {
            Ok(t) => chrono_rfc3339_utc(s@) == Ok::<(i64, u32), Seq<char>>((t.secs, t.nanos)),
            Err(m) => chrono_rfc3339_utc(s@) == Err::<(i64, u32), Seq<char>>(m@),
        },
        r matches Ok(t) ==> chrono_utc_valid(t.secs, t.nanos) && chrono_utc_valid(t.secs, 0),
{
    match DateTime::parse_from_rfc3339(s) {
        Ok(d) => {
            let u = d.with_timezone(&Utc);
            Ok(Timestamp { secs: u.timestamp(), nanos: u.timestamp_subsec_nanos() })
        },
        Err(e) => Err(e.to_string()),
    }
}

/// Whether `a` comes before `b`.
pub open spec fn ts_lt(a: Timestamp, b: Timestamp) -> bool {
    a.secs < b.secs || (a.secs == b.secs && a.nanos < b.nanos)
}

/// Whether `a` comes before `b` or is `b`.
pub open spec fn ts_le(a: Timestamp, b: Timestamp) -> bool {
    !ts_lt(b, a)
}

/// Whether `a` comes before `b`.
pub fn is_before(a: Timestamp, b: Timestamp) -> (r: bool)
    ensures
        r == ts_lt(a, b),
{
    a.secs < b.secs || (a.secs == b.secs && a.nanos < b.nanos)
}

/// The nanoseconds from `b` to `a`, counted exactly.
pub open spec fn exact_nanos_since(a: Timestamp, b: Timestamp) -> int {
    (a.secs - b.secs) * 1_000_000_000 + a.nanos - b.nanos
}

/// The second that chrono adds to or takes from the count of
/// [`chrono_nanos`] for a leap second: where the time of day of `a` is
/// later than that of `b` and `b` lies in a leap second, one more; where it
/// is earlier and `a` lies in a leap second, one less.
pub open spec fn leap_adjust(a: Timestamp, b: Timestamp) -> int {
    let sa = a.secs % 86400;
    let sb = b.secs % 86400;
    if sa > sb && b.nanos >= 1_000_000_000 {
        1
    } else if sa < sb && a.nanos >= 1_000_000_000 {
        -1
    } else {
        0
    }
}

/// The nanoseconds from `b` to `a` as chrono's `signed_duration_since`
/// counts them: the exact count, with [`leap_adjust`] seconds for leap
/// seconds.
pub open spec fn chrono_nanos(a: Timestamp, b: Timestamp) -> int {
    exact_nanos_since(a, b) + leap_adjust(a, b) * 1_000_000_000
}

/// The nanoseconds from `b` to `a` that chrono gives as an `i64`: `None`
/// unless both are instants chrono can represent and the count fits.
pub open spec fn spec_nanos_since(a: Timestamp, b: Timestamp) -> Option<i64> {
    if chrono_utc_valid(a.secs, a.nanos) && chrono_utc_valid(b.secs, b.nanos) && i64::MIN <= chrono_nanos(a, b)
        <= i64::MAX {
        Some(chrono_nanos(a, b) as i64)
    } else {
        None
    }
}

/// Calls chrono's `DateTime::<Utc>::from_timestamp` on both instants, then
/// `signed_duration_since` and `TimeDelta::num_nanoseconds`. The contract
/// claims what chrono's code computes: whole days between the dates plus the
/// difference of the times of day, adjusted by a second for a leap second as
/// [`leap_adjust`] says, in nanoseconds where that fits in an `i64`.
#[verifier::external_body]
pub(crate) fn nanos_since(a: Timestamp, b: Timestamp) -> (r: Option<i64>)
    ensures
        r == spec_nanos_since(a, b),
{
    let a = DateTime::from_timestamp(a.secs, a.nanos)?;
    let b = DateTime::from_timestamp(b.secs, b.nanos)?;
    a.signed_duration_since(b).num_nanoseconds()
}

} // verus!
