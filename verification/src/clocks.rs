//! Clock readings as text: wall-clock dates in the proleptic Gregorian
//! calendar, elapsed times and resolutions, without floating point.

use vstd::prelude::*;
use crate::text::{chars_of, string_of, decimal, owned, push_decimal, push_padded_decimal, push_signed, push_signed_padded, push_str, signed_decimal, signed_padded, zero_padded};

verus! {


pub open spec fn is_leap(y: int) -> bool {
    (y % 4 == 0 && y % 100 != 0) || y % 400 == 0
}

pub open spec fn days_in_month(y: int, m: int) -> int {
    if m == 2 {
        if is_leap(y) { 29 } else { 28 }
    } else if m == 4 || m == 6 || m == 9 || m == 11 {
        30
    } else {
        31
    }
}

pub open spec fn days_before_month(y: int, m: int) -> int {
    let leap_day = if m > 2 && is_leap(y) { 1int } else { 0int };
    leap_day + if m == 1 { 0int } else if m == 2 { 31 } else if m == 3 { 59 } else if m == 4 { 90 }
    else if m == 5 { 120 } else if m == 6 { 151 } else if m == 7 { 181 } else if m == 8 { 212 }
    else if m == 9 { 243 } else if m == 10 { 273 } else if m == 11 { 304 } else { 334 }
}

pub open spec fn leap_years_through(y: int) -> int {
    y / 4 - y / 100 + y / 400
}

pub open spec fn days_before_year(y: int) -> int {
    365 * (y - 1970) + leap_years_through(y - 1) - leap_years_through(1969)
}

pub open spec fn days_from_civil(y: int, m: int, d: int) -> int {
    days_before_year(y) + days_before_month(y, m) + d - 1
}

#[verifier::spinoff_prover]
proof fn lemma_leap_step(y: int)
    ensures
        leap_years_through(y) - leap_years_through(y - 1) == if is_leap(y) { 1int } else { 0 },
{
    let q = y / 400;
    let r = y % 400;
    assert(y == r + 400 * q);
    lemma_era(r, q);
    assert(y % 4 == r % 4 && y % 100 == r % 100 && y % 400 == r);
    if r == 0 {
        lemma_era(399, q - 1);
        assert(y - 1 == 399 + 400 * (q - 1));
    } else {
        lemma_era(r - 1, q);
        assert(y - 1 == (r - 1) + 400 * q);
    }
}

#[verifier::spinoff_prover]
proof fn lemma_march_year(y: int)
    ensures
        days_before_year(y) + 59 + (if is_leap(y) { 1int } else { 0 }) == 365 * y + leap_years_through(y) - 719468,
{
    assert(leap_years_through(1969) == 477);
    lemma_leap_step(y);
}

proof fn lemma_era(yoe: int, era: int)
    requires
        0 <= yoe < 400,
    ensures
        leap_years_through(yoe + 400 * era) == yoe / 4 - yoe / 100 + 97 * era,
{
    assert((yoe + 400 * era) / 4 == yoe / 4 + 100 * era);
    assert((yoe + 400 * era) / 100 == yoe / 100 + 4 * era);
    assert((yoe + 400 * era) / 400 == era);
}


#[verifier::spinoff_prover]
proof fn lemma_yoe(doe: int)
    requires
        0 <= doe <= 146096,
    ensures
        ({
            let yoe = (doe - doe / 1460 + doe / 36524 - doe / 146096) / 365;
            &&& 0 <= yoe <= 399
            &&& 365 * yoe + yoe / 4 - yoe / 100 <= doe
            &&& (doe < 365 * (yoe + 1) + (yoe + 1) / 4 - (yoe + 1) / 100 || (yoe == 399 && doe == 146096))
        }),
{
}

#[verifier::spinoff_prover]
proof fn lemma_month(doy: int)
    requires
        0 <= doy <= 365,
    ensures
        ({
            let mp = (5 * doy + 2) / 153;
            &&& 0 <= mp <= 11
            &&& (153 * mp + 2) / 5 <= doy
            &&& mp < 11 ==> doy < (153 * (mp + 1) + 2) / 5
        }),
{
}

#[verifier::spinoff_prover]
proof fn lemma_month_table(mp: int, year: int)
    requires
        0 <= mp <= 11,
    ensures
        mp < 10 ==> days_before_month(year, mp + 3) == 59 + (if is_leap(year) { 1int } else { 0 }) + (153 * mp + 2) / 5,
        mp >= 10 ==> days_before_month(year, mp - 9) == (153 * mp + 2) / 5 - 306,
        mp < 11 ==> (153 * (mp + 1) + 2) / 5 - (153 * mp + 2) / 5 == days_in_month(year, if mp < 10 { mp + 3 } else { mp - 9 }),
        mp == 11 ==> (153 * mp + 2) / 5 == 337,
{
}

#[verifier::spinoff_prover]
proof fn lemma_civil_sum(y: int, doy: int, mp: int, d: int, m: int, year: int, days: int)
    requires
        0 <= doy <= 365,
        0 <= mp <= 11,
        d == doy - (153 * mp + 2) / 5 + 1,
        m == if mp < 10 { mp + 3 } else { mp - 9 },
        year == y + if m <= 2 { 1int } else { 0 },
        365 * y + leap_years_through(y) - 719468 + doy == days,
    ensures
        days_from_civil(year, m, d) == days,
{
    lemma_march_year(y);
    lemma_month_table(mp, year);
    if m <= 2 {
        lemma_leap_step(y + 1);
        assert(days_before_year(y + 1) == days_before_year(y) + 365 + if is_leap(y) { 1int } else { 0 });
    }
}

#[verifier::spinoff_prover]
proof fn lemma_civil(days: int, era: int, doe: int, yoe: int, doy: int, mp: int, d: int, m: int, year: int)
    requires
        era == (days + 719468) / 146097,
        doe == days + 719468 - era * 146097,
        yoe == (doe - doe / 1460 + doe / 36524 - doe / 146096) / 365,
        doy == doe - (365 * yoe + yoe / 4 - yoe / 100),
        mp == (5 * doy + 2) / 153,
        d == doy - (153 * mp + 2) / 5 + 1,
        m == if mp < 10 { mp + 3 } else { mp - 9 },
        year == yoe + era * 400 + if m <= 2 { 1int } else { 0 },
    ensures
        1 <= m <= 12,
        1 <= d <= days_in_month(year, m),
        days_from_civil(year, m, d) == days,
{
    assert(0 <= doe <= 146096);
    assert(0 <= yoe <= 399 && 0 <= doy <= 365) by {
        lemma_yoe(doe);
    }
    assert(0 <= mp <= 11) by {
        lemma_month(doy);
    }
    let y = yoe + era * 400;
    assert(365 * y + leap_years_through(y) - 719468 + doy == days) by {
        lemma_era(yoe, era);
    }
    lemma_civil_sum(y, doy, mp, d, m, year, days);
    assert(1 <= d <= days_in_month(year, m)) by {
        lemma_yoe(doe);
        lemma_month(doy);
        lemma_month_table(mp, year);
        if mp == 11 {
            lemma_feb(yoe, era, doe, doy);
        }
    }
}

/// Whether the year that follows year `yoe` of a 400-year cycle is a
/// leap year.
pub open spec fn next_year_leap(yoe: int) -> bool {
    yoe == 399 || ((yoe + 1) % 4 == 0 && (yoe + 1) % 100 != 0)
}

#[verifier::spinoff_prover]
proof fn lemma_year_length(doe: int, yoe: int, doy: int)
    requires
        0 <= doe <= 146096,
        yoe == (doe - doe / 1460 + doe / 36524 - doe / 146096) / 365,
        doy == doe - (365 * yoe + yoe / 4 - yoe / 100),
    ensures
        doy <= 364 + if next_year_leap(yoe) { 1int } else { 0 },
{
    lemma_yoe(doe);
}

#[verifier::spinoff_prover]
proof fn lemma_leap_shift(yoe: int, era: int)
    requires
        0 <= yoe <= 399,
    ensures
        is_leap(yoe + era * 400 + 1) == next_year_leap(yoe),
{
    let y = yoe + era * 400;
    if yoe < 399 {
        assert(y + 1 == (yoe + 1) + 400 * era);
        assert((y + 1) % 4 == (yoe + 1) % 4);
        assert((y + 1) % 100 == (yoe + 1) % 100);
        assert((y + 1) % 400 == (yoe + 1) % 400);
    } else {
        assert(y + 1 == 400 * (era + 1));
    }
}

proof fn lemma_feb(yoe: int, era: int, doe: int, doy: int)
    requires
        0 <= doe <= 146096,
        yoe == (doe - doe / 1460 + doe / 36524 - doe / 146096) / 365,
        doy == doe - (365 * yoe + yoe / 4 - yoe / 100),
    ensures
        doy <= 364 + if is_leap(yoe + era * 400 + 1) { 1int } else { 0 },
{
    lemma_yoe(doe);
    lemma_year_length(doe, yoe, doy);
    lemma_leap_shift(yoe, era);
}


pub open spec fn valid_date(y: int, m: int, d: int) -> bool {
    1 <= m <= 12 && 1 <= d <= days_in_month(y, m)
}

proof fn lemma_year_bounds(y: int, m: int, d: int)
    requires
        valid_date(y, m, d),
    ensures
        days_before_year(y) <= days_from_civil(y, m, d) < days_before_year(y + 1),
{
    lemma_leap_step(y);
}

proof fn lemma_years_increase(a: int, b: int)
    requires
        a < b,
    ensures
        days_before_year(a + 1) <= days_before_year(b),
{
}

proof fn lemma_month_bounds(y: int, m1: int, d1: int, m2: int, d2: int)
    requires
        valid_date(y, m1, d1),
        valid_date(y, m2, d2),
        m1 < m2,
    ensures
        days_from_civil(y, m1, d1) < days_from_civil(y, m2, d2),
{
}

proof fn lemma_civil_unique(y1: int, m1: int, d1: int, y2: int, m2: int, d2: int)
    requires
        valid_date(y1, m1, d1),
        valid_date(y2, m2, d2),
        days_from_civil(y1, m1, d1) == days_from_civil(y2, m2, d2),
    ensures
        y1 == y2 && m1 == m2 && d1 == d2,
{
    lemma_year_bounds(y1, m1, d1);
    lemma_year_bounds(y2, m2, d2);
    if y1 < y2 {
        lemma_years_increase(y1, y2);
    } else if y2 < y1 {
        lemma_years_increase(y2, y1);
    }
    if m1 < m2 {
        lemma_month_bounds(y1, m1, d1, m2, d2);
    } else if m2 < m1 {
        lemma_month_bounds(y1, m2, d2, m1, d1);
    }
}

/// Whether `t` is a valid date `days` days after 1970-01-01.
pub open spec fn is_date_of(days: int, t: (int, int, int)) -> bool {
    valid_date(t.0, t.1, t.2) && days_from_civil(t.0, t.1, t.2) == days
}

/// The date (year, month, day) that is `days` days after 1970-01-01.
pub open spec fn civil_of(days: int) -> (int, int, int) {
    choose|t: (int, int, int)| is_date_of(days, t)
}

/// The date of a day number is the only valid date with that number.
pub proof fn lemma_civil_of(days: int, t: (int, int, int))
    requires
        is_date_of(days, t),
    ensures
        civil_of(days) == t,
{
    let c = civil_of(days);
    assert(is_date_of(days, c));
    lemma_civil_unique(c.0, c.1, c.2, t.0, t.1, t.2);
}

/// The date that is `days_since_epoch` days after 1970-01-01 in the
/// proleptic Gregorian calendar, as (year, month, day).
#[verifier::spinoff_prover]
pub fn civil_from_days(days_since_epoch: i64) -> (date: (i64, i64, i64))
    requires
        days_since_epoch <= i64::MAX - 719468,
    ensures
        valid_date(date.0 as int, date.1 as int, date.2 as int),
        days_from_civil(date.0 as int, date.1 as int, date.2 as int) == days_since_epoch,
        (date.0 as int, date.1 as int, date.2 as int) == civil_of(days_since_epoch as int),
{
    let shifted = days_since_epoch + 719468;
    let era = if shifted >= 0 {
        shifted
    } else {
        shifted - 146096
    } / 146097;
    assert(era == shifted as int / 146097);
    let day_of_era = shifted - era * 146097;
    assert(0 <= day_of_era <= 146096);
    let year_of_era = (day_of_era - day_of_era / 1460 + day_of_era / 36524 - day_of_era / 146096)
        / 365;
    proof {
        lemma_yoe(day_of_era as int);
    }
    let mut year = year_of_era + era * 400;
    let day_of_year = day_of_era - (365 * year_of_era + year_of_era / 4 - year_of_era / 100);
    assert(0 <= day_of_year <= 365);
    proof {
        lemma_month(day_of_year as int);
    }
    let month_prime = (5 * day_of_year + 2) / 153;
    let day = day_of_year - (153 * month_prime + 2) / 5 + 1;
    let month = month_prime + if month_prime < 10 {
        3
    } else {
        -9
    };
    year = year + if month <= 2 {
        1
    } else {
        0
    };
    proof {
        lemma_civil(
            days_since_epoch as int,
            era as int,
            day_of_era as int,
            year_of_era as int,
            day_of_year as int,
            month_prime as int,
            day as int,
            month as int,
            year as int,
        );
        lemma_civil_of(days_since_epoch as int, (year as int, month as int, day as int));
    }
    (year, month, day)
}

/// A time as the system reports it: seconds and nanoseconds.
#[derive(Clone, Copy, Debug, PartialEq, Eq, Structural)]
pub struct Timespec {
    pub seconds: i64,
    pub nanoseconds: i64,
}

/// How a clock's time is shown.
#[derive(Clone, Copy, Debug, PartialEq, Eq, Structural)]
pub enum DisplayKind {
    Utc,
    Tai,
    Elapsed,
}

/// A clock of the system: its identifier, name, display and note.
#[derive(Clone, Copy, Debug)]
pub struct ClockSpec {
    pub id: i32,
    pub name: &'static str,
    pub display: DisplayKind,
    pub note: &'static str,
}

/// The number of clocks that are shown.
pub const CLOCK_COUNT: usize = 7;

/// The clocks that are shown, in order: identifier, name, display, note.
pub open spec fn clock_table(index: int) -> (i32, Seq<char>, DisplayKind, Seq<char>) {
    if index == 0 {
        (0, "realtime"@, DisplayKind::Utc, "wall clock (UTC)"@)
    } else if index == 1 {
        (1, "monotonic"@, DisplayKind::Elapsed, "since boot, excluding suspend"@)
    } else if index == 2 {
        (4, "monotonic-raw"@, DisplayKind::Elapsed, "unadjusted hardware time"@)
    } else if index == 3 {
        (5, "realtime-coarse"@, DisplayKind::Utc, "fast, lower-resolution wall clock"@)
    } else if index == 4 {
        (6, "monotonic-coarse"@, DisplayKind::Elapsed, "fast, lower-resolution uptime"@)
    } else if index == 5 {
        (7, "boottime"@, DisplayKind::Elapsed, "since boot, including suspend"@)
    } else {
        (11, "tai"@, DisplayKind::Tai, "International Atomic Time"@)
    }
}

/// The clock at position `index` of the clocks that are shown.
pub fn clock_spec(index: usize) -> (spec: ClockSpec)
    requires
        index < CLOCK_COUNT,
    ensures
        (spec.id, spec.name@, spec.display, spec.note@) == clock_table(index as int),
{
    match index {
        0 => ClockSpec { id: 0, name: "realtime", display: DisplayKind::Utc, note: "wall clock (UTC)" },
        1 => ClockSpec {
            id: 1,
            name: "monotonic",
            display: DisplayKind::Elapsed,
            note: "since boot, excluding suspend",
        },
        2 => ClockSpec {
            id: 4,
            name: "monotonic-raw",
            display: DisplayKind::Elapsed,
            note: "unadjusted hardware time",
        },
        3 => ClockSpec {
            id: 5,
            name: "realtime-coarse",
            display: DisplayKind::Utc,
            note: "fast, lower-resolution wall clock",
        },
        4 => ClockSpec {
            id: 6,
            name: "monotonic-coarse",
            display: DisplayKind::Elapsed,
            note: "fast, lower-resolution uptime",
        },
        5 => ClockSpec {
            id: 7,
            name: "boottime",
            display: DisplayKind::Elapsed,
            note: "since boot, including suspend",
        },
        _ => ClockSpec { id: 11, name: "tai", display: DisplayKind::Tai, note: "International Atomic Time" },
    }
}

/// A time of day or a date field, zero-padded to two digits.
pub open spec fn two_digits(n: int) -> Seq<char> {
    signed_padded(n, 2)
}

/// A wall-clock time `seconds` after 1970-01-01T00:00:00 as an ISO 8601
/// date and time with nanoseconds, followed by `suffix`.
pub open spec fn wall_time_text(seconds: int, nanoseconds: int, suffix: Seq<char>) -> Seq<char> {
    let date = civil_of(seconds / 86400);
    let s = seconds % 86400;
    signed_padded(date.0, 4) + "-"@ + two_digits(date.1) + "-"@ + two_digits(date.2) + "T"@ + two_digits(
        s / 3600,
    ) + ":"@ + two_digits(s % 3600 / 60) + ":"@ + two_digits(s % 60) + "."@ + signed_padded(nanoseconds, 9)
        + suffix
}

/// The wall-clock time `hours`:`minutes`:`secs` on the valid date
/// `year`-`month`-`day` is shown as that date and that time, each field
/// zero-padded, with the nanoseconds and the suffix.
pub proof fn lemma_wall_time_fields(
    year: int,
    month: int,
    day: int,
    hours: int,
    minutes: int,
    secs: int,
    nanoseconds: int,
    suffix: Seq<char>,
)
    requires
        valid_date(year, month, day),
        0 <= hours < 24,
        0 <= minutes < 60,
        0 <= secs < 60,
    ensures
        wall_time_text(
            days_from_civil(year, month, day) * 86400 + hours * 3600 + minutes * 60 + secs,
            nanoseconds,
            suffix,
        ) == signed_padded(year, 4) + "-"@ + two_digits(month) + "-"@ + two_digits(day) + "T"@ + two_digits(hours)
            + ":"@ + two_digits(minutes) + ":"@ + two_digits(secs) + "."@ + signed_padded(nanoseconds, 9) + suffix,
{
    let days = days_from_civil(year, month, day);
    lemma_civil_of(days, (year, month, day));
    let total = days * 86400 + hours * 3600 + minutes * 60 + secs;
    let in_day = hours * 3600 + minutes * 60 + secs;
    assert(total / 86400 == days && total % 86400 == in_day) by {
        vstd::arithmetic::div_mod::lemma_fundamental_div_mod_converse(total, 86400, days, in_day);
    }
    assert(in_day / 3600 == hours) by {
        vstd::arithmetic::div_mod::lemma_fundamental_div_mod_converse(in_day, 3600, hours, minutes * 60 + secs);
    }
    let in_hour = minutes * 60 + secs;
    assert(in_day % 3600 == in_hour) by {
        vstd::arithmetic::div_mod::lemma_fundamental_div_mod_converse(in_day, 3600, hours, in_hour);
    }
    assert(in_hour / 60 == minutes) by {
        vstd::arithmetic::div_mod::lemma_fundamental_div_mod_converse(in_hour, 60, minutes, secs);
    }
    assert(in_day % 60 == secs) by {
        vstd::arithmetic::div_mod::lemma_fundamental_div_mod_converse(in_day, 60, hours * 60 + minutes, secs);
    }
}

/// The day number and second of the day of a time (floor division).
fn split_days(seconds: i64) -> (r: (i64, i64))
    ensures
        r.0 == seconds as int / 86400,
        r.1 == seconds as int % 86400,
{
    let q = seconds / 86400;
    let r = seconds % 86400;
    if r < 0 {
        (q - 1, r + 86400)
    } else {
        (q, r)
    }
}

/// Renders a wall-clock time: the date and time of day in UTC (or in the
/// time scale that `suffix` names), to the nanosecond.
pub fn format_wall_time(seconds: i64, nanoseconds: i64, suffix: &str) -> (text: String)
    ensures
        text@ == wall_time_text(seconds as int, nanoseconds as int, suffix@),
{
    let (days, seconds_in_day) = split_days(seconds);
    let (year, month, day) = civil_from_days(days);
    let hour = seconds_in_day / 3600;
    let minute = seconds_in_day % 3600 / 60;
    let second = seconds_in_day % 60;
    let mut text = String::new();
    push_signed_padded(&mut text, year, 4);
    push_str(&mut text, "-");
    push_signed_padded(&mut text, month, 2);
    push_str(&mut text, "-");
    push_signed_padded(&mut text, day, 2);
    push_str(&mut text, "T");
    push_signed_padded(&mut text, hour, 2);
    push_str(&mut text, ":");
    push_signed_padded(&mut text, minute, 2);
    push_str(&mut text, ":");
    push_signed_padded(&mut text, second, 2);
    push_str(&mut text, ".");
    push_signed_padded(&mut text, nanoseconds, 9);
    push_str(&mut text, suffix);
    assert(text@ =~= wall_time_text(seconds as int, nanoseconds as int, suffix@));
    text
}

/// An elapsed time: a sign, whole days when there are any, and the time of
/// day to the nanosecond.
pub open spec fn elapsed_text(seconds: int, nanoseconds: int) -> Seq<char> {
    let a = if seconds < 0 {
        -seconds
    } else {
        seconds
    };
    let days = a / 86400;
    (if seconds < 0 {
        "-"@
    } else {
        Seq::empty()
    }) + (if days == 0 {
        Seq::empty()
    } else {
        decimal(days as nat) + "d "@
    }) + two_digits(a % 86400 / 3600) + ":"@ + two_digits(a % 3600 / 60) + ":"@ + two_digits(a % 60) + "."@
        + signed_padded(nanoseconds, 9)
}

/// An elapsed time of `days` days, `hours` hours, `minutes` minutes and
/// `secs` seconds (either sign) shows the sign, the days when there are
/// any, then the hours, minutes and seconds as two-digit fields.
pub proof fn lemma_elapsed_fields(days: int, hours: int, minutes: int, secs: int, negative: bool, nanoseconds: int)
    requires
        days >= 0,
        0 <= hours < 24,
        0 <= minutes < 60,
        0 <= secs < 60,
    ensures
        ({
            let total = days * 86400 + hours * 3600 + minutes * 60 + secs;
            let seconds = if negative { -total } else { total };
            elapsed_text(seconds, nanoseconds) == (if seconds < 0 {
                "-"@
            } else {
                Seq::<char>::empty()
            }) + (if days == 0 {
                Seq::<char>::empty()
            } else {
                decimal(days as nat) + "d "@
            }) + two_digits(hours) + ":"@ + two_digits(minutes) + ":"@ + two_digits(secs) + "."@ + signed_padded(
                nanoseconds,
                9,
            )
        }),
{
    let total = days * 86400 + hours * 3600 + minutes * 60 + secs;
    let in_day = hours * 3600 + minutes * 60 + secs;
    assert(0 <= in_day < 86400);
    assert(total / 86400 == days && total % 86400 == in_day) by {
        vstd::arithmetic::div_mod::lemma_fundamental_div_mod_converse(total, 86400, days, in_day);
    }
    assert(in_day / 3600 == hours) by {
        vstd::arithmetic::div_mod::lemma_fundamental_div_mod_converse(in_day, 3600, hours, minutes * 60 + secs);
    }
    let in_hour = minutes * 60 + secs;
    assert(total % 3600 == in_hour) by {
        vstd::arithmetic::div_mod::lemma_fundamental_div_mod_converse(total, 3600, days * 24 + hours, in_hour);
    }
    assert(in_hour / 60 == minutes) by {
        vstd::arithmetic::div_mod::lemma_fundamental_div_mod_converse(in_hour, 60, minutes, secs);
    }
    assert(total % 60 == secs) by {
        vstd::arithmetic::div_mod::lemma_fundamental_div_mod_converse(total, 60, days * 1440 + hours * 60 + minutes, secs);
    }
}

/// Renders an elapsed time.
pub fn format_elapsed(seconds: i64, nanoseconds: i64) -> (text: String)
    ensures
        text@ == elapsed_text(seconds as int, nanoseconds as int),
{
    let magnitude = crate::text::magnitude(seconds);
    let days = magnitude / 86400;
    let hour = (magnitude % 86400 / 3600) as i64;
    let minute = (magnitude % 3600 / 60) as i64;
    let second = (magnitude % 60) as i64;
    let mut text = String::new();
    if seconds < 0 {
        push_str(&mut text, "-");
    }
    if days != 0 {
        push_decimal(&mut text, days);
        push_str(&mut text, "d ");
    }
    push_signed_padded(&mut text, hour, 2);
    push_str(&mut text, ":");
    push_signed_padded(&mut text, minute, 2);
    push_str(&mut text, ":");
    push_signed_padded(&mut text, second, 2);
    push_str(&mut text, ".");
    push_signed_padded(&mut text, nanoseconds, 9);
    proof {
        reveal_strlit("-");
    }
    assert(text@ =~= elapsed_text(seconds as int, nanoseconds as int));
    text
}

/// A clock resolution: seconds with nanoseconds when there are whole
/// seconds, else the largest unit of ms, µs and ns that divides it.
pub open spec fn resolution_text(seconds: int, nanoseconds: int) -> Seq<char> {
    if seconds != 0 {
        signed_decimal(seconds) + "."@ + signed_padded(nanoseconds, 9) + " s"@
    } else if nanoseconds >= 1_000_000 && nanoseconds % 1_000_000 == 0 {
        signed_decimal(nanoseconds / 1_000_000) + " ms"@
    } else if nanoseconds >= 1000 && nanoseconds % 1000 == 0 {
        signed_decimal(nanoseconds / 1000) + " µs"@
    } else {
        signed_decimal(nanoseconds) + " ns"@
    }
}

/// Renders a clock resolution.
pub fn format_resolution(time: Timespec) -> (text: String)
    ensures
        text@ == resolution_text(time.seconds as int, time.nanoseconds as int),
{
    let seconds = time.seconds;
    let nanoseconds = time.nanoseconds;
    let mut text = String::new();
    if seconds != 0 {
        push_signed(&mut text, seconds);
        push_str(&mut text, ".");
        push_signed_padded(&mut text, nanoseconds, 9);
        push_str(&mut text, " s");
    } else if nanoseconds >= 1_000_000 && nanoseconds % 1_000_000 == 0 {
        push_signed(&mut text, nanoseconds / 1_000_000);
        push_str(&mut text, " ms");
    } else if nanoseconds >= 1000 && nanoseconds % 1000 == 0 {
        push_signed(&mut text, nanoseconds / 1000);
        push_str(&mut text, " µs");
    } else {
        push_signed(&mut text, nanoseconds);
        push_str(&mut text, " ns");
    }
    assert(text@ =~= resolution_text(seconds as int, nanoseconds as int));
    text
}

/// A time as its clock's display shows it.
pub open spec fn time_text(time: Timespec, display: DisplayKind) -> Seq<char> {
    match display {
        DisplayKind::Utc => wall_time_text(time.seconds as int, time.nanoseconds as int, "Z"@),
        DisplayKind::Tai => wall_time_text(time.seconds as int, time.nanoseconds as int, " TAI"@),
        DisplayKind::Elapsed => elapsed_text(time.seconds as int, time.nanoseconds as int),
    }
}

/// Renders a time as its clock's display shows it.
pub fn format_time(time: Timespec, display: DisplayKind) -> (text: String)
    ensures
        text@ == time_text(time, display),
{
    match display {
        DisplayKind::Utc => format_wall_time(time.seconds, time.nanoseconds, "Z"),
        DisplayKind::Tai => format_wall_time(time.seconds, time.nanoseconds, " TAI"),
        DisplayKind::Elapsed => format_elapsed(time.seconds, time.nanoseconds),
    }
}

/// What was read of a clock: its time, or the system's description of why
/// it could not be read; and its resolution, when that could be read.
#[derive(Debug)]
pub struct ClockSample {
    pub time: Result<Timespec, String>,
    pub resolution: Option<Timespec>,
}

/// A clock as it is shown: name, value, resolution and note.
#[derive(Debug)]
pub struct ClockReading {
    pub name: &'static str,
    pub value: String,
    pub resolution: Option<String>,
    pub note: &'static str,
}

/// The value shown for a clock.
pub open spec fn reading_value(time: Result<Timespec, String>, display: DisplayKind) -> Seq<char> {
    match time {
        Ok(t) => time_text(t, display),
        Err(e) => "unavailable ("@ + e@ + ")"@,
    }
}

/// The readings of the clocks that are shown, from what was read of each,
/// in the same order.
pub fn read_all(samples: &Vec<ClockSample>) -> (readings: Vec<ClockReading>)
    requires
        samples@.len() == CLOCK_COUNT,
    ensures
        readings@.len() == CLOCK_COUNT,
        forall|i: int|
            0 <= i < CLOCK_COUNT ==> {
                let (_, name, display, note) = clock_table(i);
                &&& (#[trigger] readings@[i]).name@ == name
                &&& readings@[i].note@ == note
                &&& readings@[i].value@ == reading_value(samples@[i].time, display)
                &&& match samples@[i].resolution {
                    Some(r) => readings@[i].resolution is Some && readings@[i].resolution->Some_0@
                        == resolution_text(r.seconds as int, r.nanoseconds as int),
                    None => readings@[i].resolution is None,
                }
            },
{
    let mut readings: Vec<ClockReading> = Vec::new();
    let mut i: usize = 0;
    while i < CLOCK_COUNT
        invariant
            i <= CLOCK_COUNT,
            samples@.len() == CLOCK_COUNT,
            readings@.len() == i,
            forall|j: int|
                0 <= j < i ==> {
                    let (_, name, display, note) = clock_table(j);
                    &&& (#[trigger] readings@[j]).name@ == name
                    &&& readings@[j].note@ == note
                    &&& readings@[j].value@ == reading_value(samples@[j].time, display)
                    &&& match samples@[j].resolution {
                        Some(r) => readings@[j].resolution is Some && readings@[j].resolution->Some_0@
                            == resolution_text(r.seconds as int, r.nanoseconds as int),
                        None => readings@[j].resolution is None,
                    }
                },
        decreases CLOCK_COUNT - i,
    {
        let spec = clock_spec(i);
        let sample = &samples[i];
        let value = match &sample.time {
            Ok(time) => format_time(*time, spec.display),
            Err(error) => {
                let mut value = owned("unavailable (");
                push_str(&mut value, error.as_str());
                push_str(&mut value, ")");
                value
            },
        };
        let resolution = match sample.resolution {
            Some(r) => Some(format_resolution(r)),
            None => None,
        };
        readings.push(ClockReading { name: spec.name, value, resolution, note: spec.note });
        i = i + 1;
    }
    readings
}

/// `s` without leading and trailing whitespace.
pub open spec fn trim(s: Seq<char>) -> Seq<char>
    decreases s.len(),
{
    if s.len() > 0 && crate::maps::is_whitespace(s[0]) {
        trim(s.drop_first())
    } else if s.len() > 0 && crate::maps::is_whitespace(s.last()) {
        trim(s.drop_last())
    } else {
        s
    }
}

/// What trimming leaves neither starts nor ends with whitespace, and is a
/// contiguous part of the text.
pub proof fn lemma_trim_ends(s: Seq<char>)
    ensures
        trim(s).len() > 0 ==> !crate::maps::is_whitespace(trim(s)[0]) && !crate::maps::is_whitespace(
            trim(s).last(),
        ),
        exists|i: int| 0 <= i <= s.len() - trim(s).len() && trim(s) == #[trigger] s.subrange(i, i + trim(s).len()),
    decreases s.len(),
{
    if s.len() > 0 && crate::maps::is_whitespace(s[0]) {
        let rest = s.drop_first();
        lemma_trim_ends(rest);
        let i = choose|i: int| 0 <= i <= rest.len() - trim(rest).len() && trim(rest) == #[trigger] rest.subrange(i, i + trim(rest).len());
        assert(rest.subrange(i, i + trim(rest).len()) =~= s.subrange(i + 1, i + 1 + trim(rest).len()));
        assert(trim(s) == trim(rest));
        assert(trim(s) == s.subrange(i + 1, i + 1 + trim(s).len()));
    } else if s.len() > 0 && crate::maps::is_whitespace(s.last()) {
        let rest = s.drop_last();
        lemma_trim_ends(rest);
        let i = choose|i: int| 0 <= i <= rest.len() - trim(rest).len() && trim(rest) == #[trigger] rest.subrange(i, i + trim(rest).len());
        assert(rest.subrange(i, i + trim(rest).len()) =~= s.subrange(i, i + trim(rest).len()));
        assert(trim(s) == trim(rest));
        assert(trim(s) == s.subrange(i, i + trim(s).len()));
    } else {
        assert(trim(s) == s);
        assert(s.subrange(0, 0int + trim(s).len()) =~= s);
    }
}

/// The contents of a one-line system file without surrounding whitespace,
/// when anything remains.
pub fn trimmed(contents: &str) -> (r: Option<String>)
    ensures
        match r {
            Some(t) => t@ == trim(contents@) && t@.len() > 0,
            None => trim(contents@).len() == 0,
        },
{
    let chars = chars_of(contents);
    let mut start: usize = 0;
    let mut end: usize = chars.len();
    assert(chars@.subrange(0, end as int) =~= contents@);
    while start < end && crate::maps::whitespace(chars[start])
        invariant
            start <= end == chars@.len(),
            trim(contents@) == trim(chars@.subrange(start as int, end as int)),
            chars@ == contents@,
        decreases end - start,
    {
        assert(chars@.subrange(start as int, end as int).drop_first() =~= chars@.subrange(start + 1, end as int));
        start = start + 1;
    }
    while start < end && crate::maps::whitespace(chars[end - 1])
        invariant
            start <= end <= chars@.len(),
            trim(contents@) == trim(chars@.subrange(start as int, end as int)),
            start < end ==> !crate::maps::is_whitespace(chars@[start as int]),
        decreases end - start,
    {
        assert(chars@.subrange(start as int, end as int).drop_last() =~= chars@.subrange(start as int, end - 1));
        end = end - 1;
    }
    let rest = &chars.as_slice()[start..end];
    if rest.len() == 0 {
        return None;
    }
    Some(string_of(rest))
}

} // verus!
