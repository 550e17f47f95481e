use vstd::prelude::*;
use chrono::{Datelike, TimeZone, Timelike};
use crate::text::{is_digit, lemma_decimal, lemma_padded, padded, push_char, push_padded};

verus! {

/// Smallest year of a calendar date.
pub const MIN_YEAR: i32 = -262143;

/// Largest year of a calendar date.
pub const MAX_YEAR: i32 = 262142;

/// A calendar date in the proleptic Gregorian calendar.
#[derive(Clone, Copy, Debug, PartialEq, Eq, Structural)]
pub struct LocalDate {
    pub year: i32,
    pub month: u32,
    pub day: u32,
}

/// A wall-clock date and time in the local time zone. A `nanosecond` of one second or more
/// marks a leap second (then `second` is 59).
#[derive(Clone, Copy, Debug, PartialEq, Eq, Structural)]
pub struct LocalDateTime {
    pub year: i32,
    pub month: u32,
    pub day: u32,
    pub hour: u32,
    pub minute: u32,
    pub second: u32,
    pub nanosecond: u32,
}

/// A point in time: its wall-clock reading in the local time zone, and its Unix time in
/// whole seconds (the sub-second part is `local.nanosecond`).
#[derive(Clone, Copy, Debug, PartialEq, Eq, Structural)]
pub struct Timestamp {
    pub local: LocalDateTime,
    pub epoch_seconds: i64,
}

pub open spec fn is_leap_year(year: int) -> bool {
    (year % 4 == 0 && year % 100 != 0) || year % 400 == 0
}

pub open spec fn days_in_month_spec(year: int, month: int) -> int {
    if month == 2 {
        if is_leap_year(year) {
            29
        } else {
            28
        }
    } else if month == 4 || month == 6 || month == 9 || month == 11 {
        30
    } else {
        31
    }
}

impl LocalDate {
    /// A date that exists in the calendar.
    pub open spec fn valid(self) -> bool {
        &&& MIN_YEAR <= self.year <= MAX_YEAR
        &&& 1 <= self.month <= 12
        &&& 1 <= self.day <= days_in_month_spec(self.year as int, self.month as int)
    }

    /// The day before `self`.
    pub open spec fn previous_spec(self) -> LocalDate {
        if self.day > 1 {
            LocalDate { day: (self.day - 1) as u32, ..self }
        } else if self.month > 1 {
            LocalDate {
                year: self.year,
                month: (self.month - 1) as u32,
                day: days_in_month_spec(self.year as int, self.month - 1) as u32,
            }
        } else {
            LocalDate { year: (self.year - 1) as i32, month: 12, day: 31 }
        }
    }

    /// The day before `self` (`date - Duration::days(1)`); the first day of the calendar
    /// has none.
    pub fn previous(&self) -> (res: LocalDate)
        requires
            self.valid(),
            !(self.year == MIN_YEAR && self.month == 1 && self.day == 1),
        ensures
            res == self.previous_spec(),
            res.valid(),
    {
        match day_before(self) {
            Some(p) => p,
            None => {
                assert(false);
                *self
            },
        }
    }

    /// The date as `%Y-%m-%d` prints it.
    pub fn format(&self) -> (res: String)
        ensures
            res@ == date_text(*self),
    {
        let mut s = String::new();
        push_date(&mut s, self);
        s
    }
}

impl LocalDateTime {
    /// A date and time that exist in the calendar and on the clock.
    pub open spec fn valid(self) -> bool {
        &&& self.date().valid()
        &&& self.hour < 24
        &&& self.minute < 60
        &&& self.second < 60
        &&& (self.nanosecond < 1_000_000_000 || (self.second == 59 && self.nanosecond
            < 2_000_000_000))
    }

    pub open spec fn date(self) -> LocalDate {
        LocalDate { year: self.year, month: self.month, day: self.day }
    }

    /// A whole-second wall-clock time.
    pub fn new(year: i32, month: u32, day: u32, hour: u32, minute: u32, second: u32) -> (res:
        LocalDateTime)
        ensures
            res == (LocalDateTime { year, month, day, hour, minute, second, nanosecond: 0 }),
    {
        LocalDateTime { year, month, day, hour, minute, second, nanosecond: 0 }
    }

    /// The calendar date of this time.
    pub fn date_part(&self) -> (res: LocalDate)
        ensures
            res == self.date(),
    {
        LocalDate { year: self.year, month: self.month, day: self.day }
    }

    /// Whether this date and time exist.
    pub fn is_valid(&self) -> (res: bool)
        ensures
            res == self.valid(),
    {
        date_exists(self.year, self.month, self.day) && self.hour < 24 && self.minute < 60
            && self.second < 60 && (self.nanosecond < 1_000_000_000 || (self.second == 59
            && self.nanosecond < 2_000_000_000))
    }

    /// The date and time as `%Y-%m-%d %H:%M:%S` prints them.
    pub fn format(&self) -> (res: String)
        ensures
            res@ == datetime_text(*self),
    {
        let mut s = String::new();
        push_date(&mut s, &self.date_part());
        push_char(&mut s, ' ');
        push_time(&mut s, self);
        s
    }

    /// The time of day as `%H:%M:%S` prints it.
    pub fn format_time(&self) -> (res: String)
        ensures
            res@ == time_text(*self),
    {
        let mut s = String::new();
        push_time(&mut s, self);
        s
    }
}

/// `chrono::NaiveDate::from_ymd_opt(year, month, day).is_some()`. Stated: it holds exactly of the
/// dates of the proleptic Gregorian calendar in chrono's year range (-262143 to 262142), as the
/// function's documentation and source say.
#[verifier::external_body]
fn date_exists(year: i32, month: u32, day: u32) -> (res: bool)
    ensures
        res == (LocalDate { year, month, day }).valid(),
{
    chrono::NaiveDate::from_ymd_opt(year, month, day).is_some()
}

/// `chrono::NaiveDate::from_ymd_opt(..)` and then `pred_opt()`: the day before `d`. Stated: the
/// previous calendar day for a valid date after the first of the calendar, `None` otherwise, as
/// the functions' documentation and source say.
#[verifier::external_body]
fn day_before(d: &LocalDate) -> (res: Option<LocalDate>)
    ensures
        d.valid() && !(d.year == MIN_YEAR && d.month == 1 && d.day == 1) ==> res == Some(
            d.previous_spec(),
        ),
        !d.valid() || (d.year == MIN_YEAR && d.month == 1 && d.day == 1) ==> res is None,
{
    let p = chrono::NaiveDate::from_ymd_opt(d.year, d.month, d.day)?.pred_opt()?;
    Some(LocalDate { year: p.year(), month: p.month(), day: p.day() })
}

/// A year as `%Y` prints it: four digits at least, with a sign outside 0 to 9999.
pub open spec fn year_text(year: int) -> Seq<char> {
    if 0 <= year <= 9999 {
        padded(year as nat, 4)
    } else if year < 0 {
        seq!['-'] + padded((-year) as nat, 4)
    } else {
        seq!['+'] + padded(year as nat, 4)
    }
}

/// `%Y-%m-%d`.
pub open spec fn date_text(d: LocalDate) -> Seq<char> {
    year_text(d.year as int) + seq!['-'] + padded(d.month as nat, 2) + seq!['-'] + padded(
        d.day as nat,
        2,
    )
}

/// `%H:%M:%S`; a leap second reads 60.
pub open spec fn time_text(t: LocalDateTime) -> Seq<char> {
    padded(t.hour as nat, 2) + seq![':'] + padded(t.minute as nat, 2) + seq![':'] + padded(
        (t.second + t.nanosecond / 1_000_000_000) as nat,
        2,
    )
}

/// `%Y-%m-%d %H:%M:%S`.
pub open spec fn datetime_text(t: LocalDateTime) -> Seq<char> {
    date_text(t.date()) + seq![' '] + time_text(t)
}

fn push_date(s: &mut String, d: &LocalDate)
    ensures
        final(s)@ == old(s)@ + date_text(*d),
{
    let ghost start = s@;
    if 0 <= d.year && d.year <= 9999 {
        push_padded(s, d.year as u64, 4);
    } else if d.year < 0 {
        push_char(s, '-');
        let magnitude: i64 = -(d.year as i64);
        push_padded(s, magnitude as u64, 4);
    } else {
        push_char(s, '+');
        push_padded(s, d.year as u64, 4);
    }
    assert(s@ == start + year_text(d.year as int));
    push_char(s, '-');
    push_padded(s, d.month as u64, 2);
    push_char(s, '-');
    push_padded(s, d.day as u64, 2);
}

fn push_time(s: &mut String, t: &LocalDateTime)
    ensures
        final(s)@ == old(s)@ + time_text(*t),
{
    push_padded(s, t.hour as u64, 2);
    push_char(s, ':');
    push_padded(s, t.minute as u64, 2);
    push_char(s, ':');
    let shown: u64 = t.second as u64 + (t.nanosecond / 1_000_000_000) as u64;
    push_padded(s, shown, 2);
}

/// A character of a printed date and time: a digit, '-', ':' or ' '.
pub open spec fn stamp_char(c: char) -> bool {
    is_digit(c) || c == '-' || c == ':' || c == ' '
}

/// A valid date and time of the years 0 to 9999 prints as 19 characters, each a digit, '-',
/// ':' or ' ', the last a digit.
pub proof fn lemma_datetime_text(t: LocalDateTime)
    requires
        t.valid(),
        0 <= t.year <= 9999,
    ensures
        datetime_text(t).len() == 19,
        forall|i: int| 0 <= i < 19 ==> stamp_char(#[trigger] datetime_text(t)[i]),
        is_digit(datetime_text(t)[18]),
{
    let sec = (t.second + t.nanosecond / 1_000_000_000) as nat;
    assert(sec < 100);
    lemma_decimal(t.year as nat);
    lemma_decimal(t.month as nat);
    lemma_decimal(t.day as nat);
    lemma_decimal(t.hour as nat);
    lemma_decimal(t.minute as nat);
    lemma_decimal(sec);
    lemma_padded(t.year as nat, 4);
    lemma_padded(t.month as nat, 2);
    lemma_padded(t.day as nat, 2);
    lemma_padded(t.hour as nat, 2);
    lemma_padded(t.minute as nat, 2);
    lemma_padded(sec, 2);
    let y = padded(t.year as nat, 4);
    let mo = padded(t.month as nat, 2);
    let d = padded(t.day as nat, 2);
    let h = padded(t.hour as nat, 2);
    let mi = padded(t.minute as nat, 2);
    let se = padded(sec, 2);
    let s = datetime_text(t);
    assert(s == y + seq!['-'] + mo + seq!['-'] + d + seq![' '] + h + seq![':'] + mi + seq![':'] + se);
    assert(s =~= seq![
        y[0], y[1], y[2], y[3], '-', mo[0], mo[1], '-', d[0], d[1], ' ', h[0], h[1], ':', mi[0],
        mi[1], ':', se[0], se[1]
    ]);
    assert(is_digit(se[1]));
}

/// The later of two points in time, by Unix time and then by the sub-second part.
pub open spec fn is_after(a: Timestamp, b: Timestamp) -> bool {
    a.epoch_seconds > b.epoch_seconds || (a.epoch_seconds == b.epoch_seconds
        && a.local.nanosecond > b.local.nanosecond)
}

/// Whether `a` is strictly later than `b`.
pub fn after(a: &Timestamp, b: &Timestamp) -> (res: bool)
    ensures
        res == is_after(*a, *b),
{
    a.epoch_seconds > b.epoch_seconds || (a.epoch_seconds == b.epoch_seconds
        && a.local.nanosecond > b.local.nanosecond)
}

/// The latest Unix time that the clock is read at: about the year 255000, more than a day
/// before the end of chrono's calendar.
pub const LATEST_CLOCK_SECONDS: i64 = 8_000_000_000_000;

#[verifier::external_type_specification]
#[verifier::external_body]
pub struct ExSystemTime(std::time::SystemTime);

/// `std::time::SystemTime::now()`: the system clock. Nothing is stated of it: it depends on the
/// clock.
#[verifier::external_body]
fn system_now() -> (res: std::time::SystemTime) {
    std::time::SystemTime::now()
}

/// `SystemTime::duration_since(UNIX_EPOCH)`: how long after the Unix epoch `t` lies; `None`
/// when it lies before. Nothing is stated of the value: it depends on the clock.
#[verifier::external_body]
fn since_epoch(t: &std::time::SystemTime) -> (res: Option<std::time::Duration>) {
    t.duration_since(std::time::UNIX_EPOCH).ok()
}

/// `Duration::as_secs`: the whole seconds of `d`. A `Duration` is opaque here, so nothing is
/// stated of the value.
#[verifier::external_body]
fn whole_seconds(d: &std::time::Duration) -> (res: u64) {
    d.as_secs()
}

/// `Duration::subsec_nanos`: the nanoseconds of `d` past its whole seconds. Stated: they are
/// below one second, as the function's documentation says.
#[verifier::external_body]
fn subsec_nanos_of(d: &std::time::Duration) -> (res: u32)
    ensures
        res < 1_000_000_000,
{
    d.subsec_nanos()
}

/// The wall-clock reading in the local time zone of the Unix time `secs` with `nanos`:
/// `chrono::DateTime::from_timestamp(secs, nanos)`, moved to the zone by
/// `with_timezone(&chrono::Local)`, then `naive_local()`, its fields read out. Stated: for a Unix
/// time from the epoch to `LATEST_CLOCK_SECONDS` with nanoseconds below one second there is a
/// reading, and it is a valid date and time: `from_timestamp` accepts every such time, chrono's
/// zone lookup succeeds for every Unix time in its range, and moving by the zone's offset (less
/// than a day, as `FixedOffset` keeps it) stays inside chrono's calendar; so the reading, read
/// as UTC, lies within a day of `secs` (`checked_add_offset`). Which reading it is depends on the
/// machine's time zone and is left unsaid.
#[verifier::external_body]
fn local_reading(secs: i64, nanos: u32) -> (res: Option<LocalDateTime>)
    requires
        0 <= secs <= LATEST_CLOCK_SECONDS,
        nanos < 1_000_000_000,
    ensures
        res is Some,
        res matches Some(t) ==> t.valid(),
        res matches Some(t) ==> utc_seconds(t) - 86400 < secs < utc_seconds(t) + 86400,
{
    let dt = chrono::DateTime::from_timestamp(secs, nanos)?.with_timezone(&chrono::Local).naive_local();
    Some(
        LocalDateTime {
            year: dt.year(),
            month: dt.month(),
            day: dt.day(),
            hour: dt.hour(),
            minute: dt.minute(),
            second: dt.second(),
            nanosecond: dt.nanosecond(),
        },
    )
}

/// Days from 1970-01-01 to the date `year`-`month`-`day` in the proleptic Gregorian calendar
/// (negative before it).
pub open spec fn days_from_epoch(year: int, month: int, day: int) -> int {
    let y = if month <= 2 {
        year - 1
    } else {
        year
    };
    let era = y / 400;
    let yoe = y - era * 400;
    let mp = if month > 2 {
        month - 3
    } else {
        month + 9
    };
    let doy = (153 * mp + 2) / 5 + day - 1;
    let doe = yoe * 365 + yoe / 4 - yoe / 100 + doy;
    era * 146097 + doe - 719468
}

/// The first of March follows the last day of February: 28 days after the first of February,
/// 29 in a leap year.
proof fn lemma_february_length(y: int)
    ensures
        days_from_epoch(y, 3, 1) == days_from_epoch(y, 2, 1) + days_in_month_spec(y, 2),
{
    let z = y - 1;
    let e = z / 400;
    let q = z % 400;
    assert(z == e * 400 + q && 0 <= q < 400) by {
        vstd::arithmetic::div_mod::lemma_fundamental_div_mod(z, 400);
    }
    if q < 399 {
        assert(y / 400 == e && y % 400 == q + 1) by {
            vstd::arithmetic::div_mod::lemma_fundamental_div_mod_converse(y, 400, e, q + 1);
        }
        assert(y % 4 == (q + 1) % 4 && y % 100 == (q + 1) % 100) by {
            vstd::arithmetic::div_mod::lemma_fundamental_div_mod_converse(y, 4, e * 100 + (q + 1) / 4, (q + 1) % 4);
            vstd::arithmetic::div_mod::lemma_fundamental_div_mod_converse(y, 100, e * 4 + (q + 1) / 100, (q + 1) % 100);
        }
    } else {
        assert(y / 400 == e + 1 && y % 400 == 0) by {
            vstd::arithmetic::div_mod::lemma_fundamental_div_mod_converse(y, 400, e + 1, 0);
        }
        assert(y % 4 == 0 && y % 100 == 0) by {
            vstd::arithmetic::div_mod::lemma_fundamental_div_mod_converse(y, 4, (e + 1) * 100, 0);
            vstd::arithmetic::div_mod::lemma_fundamental_div_mod_converse(y, 100, (e + 1) * 4, 0);
        }
    }
}

/// Each day of the calendar is one day after the day before it.
pub proof fn lemma_previous_day(d: LocalDate)
    requires
        d.valid(),
        !(d.year == MIN_YEAR && d.month == 1 && d.day == 1),
    ensures
        days_from_epoch(d.year as int, d.month as int, d.day as int) == days_from_epoch(
            d.previous_spec().year as int,
            d.previous_spec().month as int,
            d.previous_spec().day as int,
        ) + 1,
{
    if d.day == 1 && d.month == 3 {
        lemma_february_length(d.year as int);
    }
}

/// Whether date `a` comes before date `b` in the calendar (by year, then month, then day).
pub open spec fn date_before(a: LocalDate, b: LocalDate) -> bool {
    a.year < b.year || (a.year == b.year && (a.month < b.month || (a.month == b.month && a.day
        < b.day)))
}

pub open spec fn date_rank(d: LocalDate) -> nat {
    ((d.year - MIN_YEAR) * 512 + d.month * 32 + d.day) as nat
}

/// A later date of the calendar is more days after 1970-01-01: `days_from_epoch` counts the
/// calendar's days in order.
pub proof fn lemma_days_increasing(a: LocalDate, b: LocalDate)
    requires
        a.valid(),
        b.valid(),
        date_before(a, b),
    ensures
        days_from_epoch(a.year as int, a.month as int, a.day as int) < days_from_epoch(
            b.year as int,
            b.month as int,
            b.day as int,
        ),
    decreases date_rank(b),
{
    let p = b.previous_spec();
    lemma_previous_day(b);
    assert(p.valid());
    assert(date_rank(p) < date_rank(b));
    if p != a {
        assert(date_before(a, p));
        lemma_days_increasing(a, p);
    }
}

/// The Unix time that the wall-clock reading `t` names when it is read as UTC.
pub open spec fn utc_seconds(t: LocalDateTime) -> int {
    days_from_epoch(t.year as int, t.month as int, t.day as int) * 86400 + t.hour * 3600 + t.minute
        * 60 + t.second
}

/// The Unix time of `ts` lies within a day of its wall-clock reading read as UTC: the local time
/// zone's offset from UTC is less than a day.
pub open spec fn within_a_day(ts: Timestamp) -> bool {
    utc_seconds(ts.local) - 86400 < ts.epoch_seconds < utc_seconds(ts.local) + 86400
}

/// A wall-clock reading at least two days after another (both read as UTC) denotes a later point
/// in time, wherever the local time zone places each within a day of its reading.
pub proof fn lemma_two_days_later_is_later(a: Timestamp, b: Timestamp)
    requires
        within_a_day(a),
        within_a_day(b),
        utc_seconds(b.local) >= utc_seconds(a.local) + 2 * 86400,
    ensures
        a.epoch_seconds < b.epoch_seconds,
        is_after(b, a),
{
}

/// `chrono::Local.from_local_datetime(..).earliest()`: the point in time that the wall-clock
/// reading `t` denotes in the local time zone, the earlier one where the reading is ambiguous
/// and `None` where it does not exist (or `t` is no valid date and time). Stated: a result
/// carries `t` as its wall-clock reading, as `DateTime::naive_local` gives back the reading it
/// was made from; and its Unix time is that of `t` read as UTC less the zone's offset
/// (`checked_sub_offset`), an offset that `FixedOffset` keeps below a day either way
/// (`FixedOffset::east_opt`). Whether a result exists, and the offset itself, depend on the time
/// zone of the machine and are left unsaid.
#[verifier::external_body]
fn local_to_timestamp(t: &LocalDateTime) -> (res: Option<Timestamp>)
    ensures
        res matches Some(ts) ==> ts.local == *t,
        res matches Some(ts) ==> within_a_day(ts),
{
    let date = chrono::NaiveDate::from_ymd_opt(t.year, t.month, t.day)?;
    let naive = date.and_hms_nano_opt(t.hour, t.minute, t.second, t.nanosecond)?;
    let dt = chrono::Local.from_local_datetime(&naive).earliest()?;
    Some(Timestamp { local: *t, epoch_seconds: dt.timestamp() })
}

/// What `chrono::NaiveDateTime::parse_from_str(text, "%Y-%m-%d %H:%M:%S")` reads from `text`,
/// as local wall-clock fields.
pub uninterp spec fn parsed_datetime(text: Seq<char>) -> Option<LocalDateTime>;

/// `chrono::NaiveDateTime::parse_from_str(text, "%Y-%m-%d %H:%M:%S")`, its fields read out.
/// Stated: the result is `parsed_datetime` of the text; a parsed value is a valid date and time
/// (a `NaiveDateTime` holds nothing else); and a whole-second time of the years 0 to 9999, printed
/// in that format, reads back as itself, as chrono documents for parsing what its formatting
/// prints. Which other texts chrono accepts is left to the name.
#[verifier::external_body]
pub(crate) fn parse_datetime(text: &str) -> (res: Option<LocalDateTime>)
    ensures
        res == parsed_datetime(text@),
        res matches Some(t) ==> t.valid(),
        forall|t: LocalDateTime|
            t.valid() && 0 <= t.year <= 9999 && t.nanosecond == 0 && #[trigger] datetime_text(t)
                == text@ ==> res == Some(t),
{
    let dt = chrono::NaiveDateTime::parse_from_str(text, "%Y-%m-%d %H:%M:%S").ok()?;
    Some(
        LocalDateTime {
            year: dt.year(),
            month: dt.month(),
            day: dt.day(),
            hour: dt.hour(),
            minute: dt.minute(),
            second: dt.second(),
            nanosecond: dt.nanosecond(),
        },
    )
}

impl Timestamp {
    /// The point in time `secs` seconds and `nanos` nanoseconds after the Unix epoch, with its
    /// wall-clock reading in the local time zone: `None` exactly when it lies before the epoch,
    /// after `LATEST_CLOCK_SECONDS`, or `nanos` is a second or more.
    pub fn from_clock(secs: i64, nanos: u32) -> (res: Option<Timestamp>)
        ensures
            (0 <= secs <= LATEST_CLOCK_SECONDS && nanos < 1_000_000_000) <==> res is Some,
            res matches Some(ts) ==> ts.epoch_seconds == secs && ts.local.valid(),
            res matches Some(ts) ==> within_a_day(ts),
    {
        if secs < 0 || secs > LATEST_CLOCK_SECONDS || nanos >= 1_000_000_000 {
            return None;
        }
        match local_reading(secs, nanos) {
            Some(local) => Some(Timestamp { local, epoch_seconds: secs }),
            None => None,
        }
    }

    /// The current time: the system clock read as a Unix time (`from_clock`). `None` when the
    /// clock reads before the Unix epoch or after `LATEST_CLOCK_SECONDS`.
    pub fn now() -> (res: Option<Timestamp>)
        ensures
            res matches Some(ts) ==> ts.local.valid(),
    {
        let clock = system_now();
        let since = match since_epoch(&clock) {
            Some(d) => d,
            None => return None,
        };
        let secs = whole_seconds(&since);
        let nanos = subsec_nanos_of(&since);
        if secs > 8_000_000_000_000u64 {
            return None;
        }
        Self::from_clock(secs as i64, nanos)
    }

    /// The point in time that the wall-clock reading `local` denotes here: `None` when `local`
    /// is no valid date and time, or when the local time zone skips it. Its Unix time lies within
    /// a day of the reading read as UTC.
    pub fn from_local(local: LocalDateTime) -> (res: Option<Timestamp>)
        ensures
            !local.valid() ==> res is None,
            res matches Some(ts) ==> ts.local == local,
            res matches Some(ts) ==> within_a_day(ts),
    {
        if !local.is_valid() {
            return None;
        }
        local_to_timestamp(&local)
    }

    /// The wall-clock reading.
    pub fn local(&self) -> (res: LocalDateTime)
        ensures
            res == self.local,
    {
        self.local
    }
}

} // verus!
