//! Instants in UTC as plain numbers, and the calendar questions the
//! forecast asks of them in the Europe/Helsinki time zone. The calendar
//! work is chrono's and chrono-tz's; this module only carries their answers.
use vstd::prelude::*;
use chrono::{DateTime, Datelike, NaiveDate, TimeZone, Utc};
use chrono_tz::Europe::Helsinki;

verus! {

/// An instant as chrono's `DateTime<Utc>` holds it: whole seconds since
/// 1970-01-01T00:00:00Z (`timestamp()`) and the nanoseconds past that
/// second (`timestamp_subsec_nanos()`, at or above one billion only during
/// a leap second).
#[derive(Clone, Copy, Debug, PartialEq, Eq, Structural)]
pub struct UtcInstant {
    pub secs: i64,
    pub nanos: u32,
}

/// The earliest whole second chrono's `DateTime<Utc>` can hold: the start
/// of `NaiveDate::MIN`, -262143-01-01T00:00:00Z (262144 BCE).
pub const CHRONO_MIN_SECS: i64 = -8_334_601_228_800;

/// The latest whole second chrono's `DateTime<Utc>` can hold: the last
/// second of `NaiveDate::MAX`, +262142-12-31T23:59:59Z.
pub const CHRONO_MAX_SECS: i64 = 8_210_266_876_799;

/// The number that chrono's `num_days_from_ce` gives 1970-01-01.
pub const EPOCH_DAY: i64 = 719_163;

/// An instant that chrono's `DateTime::from_timestamp` accepts: a second in
/// chrono's range, and nanoseconds that reach past one billion only on
/// second 59 of a minute (a leap second).
pub open spec fn in_chrono_range(t: UtcInstant) -> bool {
    &&& CHRONO_MIN_SECS <= t.secs <= CHRONO_MAX_SECS
    &&& t.nanos < 2_000_000_000
    &&& t.nanos >= 1_000_000_000 ==> t.secs % 60 == 59
}

/// An instant in chrono's range and at least a day from either end of it,
/// so that its local time in any time zone is in range too (chrono panics
/// on a local time out of range).
pub open spec fn chrono_instant(t: UtcInstant) -> bool {
    &&& in_chrono_range(t)
    &&& CHRONO_MIN_SECS + 86400 <= t.secs <= CHRONO_MAX_SECS - 86400
}

/// Chronological order, which is the order of `DateTime<Utc>`.
pub open spec fn instant_before(a: UtcInstant, b: UtcInstant) -> bool {
    a.secs < b.secs || (a.secs == b.secs && a.nanos < b.nanos)
}

/// The day number (`num_days_from_ce`) of the UTC calendar date of `t`.
pub open spec fn utc_day(t: UtcInstant) -> int {
    t.secs / 86400 + EPOCH_DAY
}

/// The whole seconds of `t` moved `h` hours, as chrono counts them: from
/// inside a leap second, moving back also counts the leap second.
pub open spec fn shifted_secs(t: UtcInstant, h: int) -> int {
    if t.nanos >= 1_000_000_000 && h < 0 {
        t.secs + 1 + 3600 * h
    } else {
        t.secs + 3600 * h
    }
}

/// `t` moved `h` whole hours, as `DateTime<Utc> + TimeDelta::hours(h)`
/// does it: plain second arithmetic, except that from inside a leap second
/// chrono first leaves it (it drops the extra second's fraction, and moving
/// back it also counts the leap second).
pub open spec fn hours_after(t: UtcInstant, h: int) -> UtcInstant {
    if t.nanos >= 1_000_000_000 && h != 0 {
        UtcInstant { secs: shifted_secs(t, h) as i64, nanos: (t.nanos - 1_000_000_000) as u32 }
    } else {
        UtcInstant { secs: shifted_secs(t, h) as i64, nanos: t.nanos }
    }
}

/// Moves `t` by `h` hours (earlier for a negative `h`). chrono panics when
/// the result leaves its range, so the result must lie in it.
pub fn add_hours(t: UtcInstant, h: i64) -> (r: UtcInstant)
    requires
        in_chrono_range(t),
        CHRONO_MIN_SECS <= shifted_secs(t, h as int) <= CHRONO_MAX_SECS,
    ensures
        r == hours_after(t, h as int),
{
    if t.nanos >= 1_000_000_000 && h > 0 {
        UtcInstant { secs: t.secs + 3600 * h, nanos: t.nanos - 1_000_000_000 }
    } else if t.nanos >= 1_000_000_000 && h < 0 {
        UtcInstant { secs: t.secs + 1 + 3600 * h, nanos: t.nanos - 1_000_000_000 }
    } else {
        UtcInstant { secs: t.secs + 3600 * h, nanos: t.nanos }
    }
}

/// What `DateTime::parse_from_rfc3339(s)` followed by
/// `with_timezone(&Utc)` gives for `s`, taken as an instant.
pub uninterp spec fn rfc3339_utc(s: Seq<char>) -> Option<UtcInstant>;

/// Parses an RFC 3339 timestamp with chrono and converts it to UTC. chrono
/// reads a four-digit year and an offset of at most 23:59, so the instant
/// lies in years 0 to 9999, and chrono keeps a leap second on second 59
/// (offsets are whole minutes).
#[verifier::external_body]
pub(crate) fn parse_rfc3339_utc(s: &str) -> (r: Option<UtcInstant>)
    ensures
        r == rfc3339_utc(s@),
        r matches Some(t) ==> chrono_instant(t),
{
    match DateTime::parse_from_rfc3339(s) {
        Ok(t) => {
            let u = t.with_timezone(&Utc);
            Some(UtcInstant { secs: u.timestamp(), nanos: u.timestamp_subsec_nanos() })
        },
        Err(_) => None,
    }
}

/// What `a.signed_duration_since(b).num_seconds()` gives for the chrono
/// instants `a` and `b`. chrono takes the difference of the days and of the
/// times of day; a time of day inside a leap second counts that second
/// when the other time of day lies on its far side. The `TimeDelta` of
/// whole seconds and nanoseconds (0 to 999,999,999) is then truncated
/// toward zero.
pub open spec fn chrono_seconds_between(a: UtcInstant, b: UtcInstant) -> int {
    let ta = a.secs % 86400;
    let tb = b.secs % 86400;
    let leap: int = if ta > tb && b.nanos >= 1_000_000_000 {
        1
    } else if ta < tb && a.nanos >= 1_000_000_000 {
        -1
    } else {
        0
    };
    let frac = a.nanos - b.nanos;
    let s = a.secs - b.secs + leap + frac / 1_000_000_000;
    let n = frac % 1_000_000_000;
    if s < 0 && n > 0 {
        s + 1
    } else {
        s
    }
}

/// chrono's `signed_duration_since` then `num_seconds`: whole seconds from
/// `b` to `a`, truncated toward zero, as `chrono_seconds_between` spells
/// out chrono's arithmetic.
#[verifier::external_body]
pub(crate) fn seconds_between(a: UtcInstant, b: UtcInstant) -> (r: i64)
    requires
        in_chrono_range(a),
        in_chrono_range(b),
    ensures
        r == chrono_seconds_between(a, b),
{
    let da = DateTime::from_timestamp(a.secs, a.nanos).unwrap();
    let db = DateTime::from_timestamp(b.secs, b.nanos).unwrap();
    da.signed_duration_since(db).num_seconds()
}

/// The day number (`num_days_from_ce`) of the Europe/Helsinki local date
/// at instant `t`, as chrono-tz computes it.
pub uninterp spec fn helsinki_day_number(t: UtcInstant) -> i32;

/// chrono-tz: the Europe/Helsinki calendar date of `t`, as a day number.
/// Local time is UTC plus an offset of less than a day either way (chrono's
/// `FixedOffset` allows no more), so that date is the UTC date or a
/// neighbour of it.
#[verifier::external_body]
pub(crate) fn helsinki_day(t: UtcInstant) -> (d: i32)
    requires
        chrono_instant(t),
    ensures
        d == helsinki_day_number(t),
        utc_day(t) - 1 <= d <= utc_day(t) + 1,
{
    let dt = DateTime::from_timestamp(t.secs, t.nanos).unwrap();
    dt.with_timezone(&Helsinki).date_naive().num_days_from_ce()
}

/// The UTC instant of the Europe/Helsinki local time `h:m:s` on the date
/// with day number `day`, when chrono-tz maps that local time to a single
/// instant.
pub uninterp spec fn helsinki_local_utc(day: i32, h: u32, m: u32, s: u32) -> Option<UtcInstant>;

/// The whole seconds since the epoch of local time `h:m:s` on day `day`,
/// read as if it were UTC.
pub open spec fn local_secs(day: int, h: int, m: int, s: int) -> int {
    (day - EPOCH_DAY) * 86400 + h * 3600 + m * 60 + s
}

/// chrono-tz: the Europe/Helsinki local time `h:m:s` on day `day` as a UTC
/// instant, `None` where the date or the time of day does not exist, or
/// the local time is skipped or ambiguous (`LocalResult::single`). A valid
/// time of day has `h < 24`, `m < 60` and `s < 60`; the instant lies
/// within a day of the local reading, by chrono's bound on offsets, and in
/// chrono's range, as every `DateTime<Utc>` does.
#[verifier::external_body]
pub(crate) fn helsinki_local_to_utc(day: i32, h: u32, m: u32, s: u32) -> (r: Option<UtcInstant>)
    ensures
        r == helsinki_local_utc(day, h, m, s),
        r matches Some(t) ==> t.nanos == 0 && h < 24 && m < 60 && s < 60 && in_chrono_range(t),
        r matches Some(t) ==> local_secs(day as int, h as int, m as int, s as int) - 86400 < t.secs
            < local_secs(day as int, h as int, m as int, s as int) + 86400,
{
    match NaiveDate::from_num_days_from_ce_opt(day) {
        Some(date) => match Helsinki.with_ymd_and_hms(date.year(), date.month(), date.day(), h, m, s).single() {
            Some(t) => {
                let u = t.with_timezone(&Utc);
                Some(UtcInstant { secs: u.timestamp(), nanos: u.timestamp_subsec_nanos() })
            },
            None => None,
        },
        None => None,
    }
}

/// Monday is 0: day number 1 (0001-01-01 in the proleptic Gregorian
/// calendar, which chrono uses) was a Monday.
pub open spec fn weekday_of_day(day: int) -> int {
    (day - 1) % 7
}

/// The three-letter English name of weekday `w` (Monday is 0).
pub open spec fn weekday_name(w: int) -> Seq<char> {
    if w == 0 {
        "Mon"@
    } else if w == 1 {
        "Tue"@
    } else if w == 2 {
        "Wed"@
    } else if w == 3 {
        "Thu"@
    } else if w == 4 {
        "Fri"@
    } else if w == 5 {
        "Sat"@
    } else {
        "Sun"@
    }
}

/// The weekday, in Europe/Helsinki local time, of `t`: "Mon" to "Sun".
pub fn weekday_label_local(t: UtcInstant) -> (r: String)
    requires
        chrono_instant(t),
    ensures
        r@ == weekday_name(weekday_of_day(helsinki_day_number(t) as int)),
{
    let d = helsinki_day(t);
    let w = ((d as i64) - 1) % 7;
    let w = if w < 0 { w + 7 } else { w };
    assert(w == weekday_of_day(d as int));
    if w == 0 {
        String::from_str("Mon")
    } else if w == 1 {
        String::from_str("Tue")
    } else if w == 2 {
        String::from_str("Wed")
    } else if w == 3 {
        String::from_str("Thu")
    } else if w == 4 {
        String::from_str("Fri")
    } else if w == 5 {
        String::from_str("Sat")
    } else {
        String::from_str("Sun")
    }
}

} // verus!
