//! Log lines: a time stamp of China Standard Time, a level and a text.

use vstd::prelude::*;
use crate::digits;

verus! {

/// How much a log line matters.
#[derive(Debug, Clone, Copy, PartialEq, Eq, Structural)]
pub enum Level {
    Info,
    Warn,
    Error,
}

/// The name of a level in a log line.
pub open spec fn level_name(level: Level) -> Seq<char> {
    match level {
        Level::Info => "INFO"@,
        Level::Warn => "WARN"@,
        Level::Error => "ERROR"@,
    }
}

impl Level {
    /// The name of the level in a log line.
    pub fn as_str(self) -> (r: &'static str)
        ensures
            r@ == level_name(self),
    {
        match self {
            Level::Info => "INFO",
            Level::Warn => "WARN",
            Level::Error => "ERROR",
        }
    }
}

// ---------------------------------------------------------------------------
// The calendar
// ---------------------------------------------------------------------------

/// Whether a year of the Gregorian calendar has a leap day.
pub open spec fn is_leap(y: int) -> bool {
    y % 4 == 0 && (y % 100 != 0 || y % 400 == 0)
}

/// The number of days in a year.
pub open spec fn year_len(y: int) -> int {
    if is_leap(y) {
        366
    } else {
        365
    }
}

/// The number of days in a month.
pub open spec fn month_len(y: int, m: int) -> int {
    if m == 2 {
        if is_leap(y) {
            29
        } else {
            28
        }
    } else if m == 4 || m == 6 || m == 9 || m == 11 {
        30
    } else {
        31
    }
}

/// Whether there is such a date.
pub open spec fn valid_date(y: int, m: int, d: int) -> bool {
    1 <= m <= 12 && 1 <= d <= month_len(y, m)
}

/// The days of a year before a month of it.
pub open spec fn days_before_month(y: int, m: int) -> int
    decreases m,
{
    if m <= 1 {
        0
    } else {
        days_before_month(y, m - 1) + month_len(y, m - 1)
    }
}

/// The days from the start of the year 1 to the start of the year `y`.
pub open spec fn days_before_year(y: int) -> int {
    365 * (y - 1) + (y - 1) / 4 - (y - 1) / 100 + (y - 1) / 400
}

/// The days from the first of January 1970 to a date.
pub open spec fn day_number(y: int, m: int, d: int) -> int {
    days_before_year(y) + days_before_month(y, m) + (d - 1) - days_before_year(1970)
}

/// [`days_before_year`] counts the days of the years one by one.
pub proof fn law_years_add_up(y: int)
    ensures
        days_before_year(1) == 0,
        days_before_year(y + 1) == days_before_year(y) + year_len(y),
{
}

/// A year has twelve months, and they add up to it.
pub proof fn law_months_add_up(y: int)
    ensures
        days_before_month(y, 13) == year_len(y),
{
    reveal_with_fuel(days_before_month, 14);
}

proof fn lemma_months_ascend(y: int, m: int, n: int)
    requires
        1 <= m < n <= 13,
    ensures
        days_before_month(y, m) + month_len(y, m) <= days_before_month(y, n),
    decreases n - m,
{
    if m + 1 < n {
        lemma_months_ascend(y, m, n - 1);
    }
}

proof fn lemma_years_ascend(y: int, z: int)
    requires
        y < z,
    ensures
        days_before_year(y) + year_len(y) <= days_before_year(z),
    decreases z - y,
{
    if y + 1 < z {
        lemma_years_ascend(y, z - 1);
        law_years_add_up(z - 1);
    } else {
        law_years_add_up(y);
    }
}

proof fn lemma_dates_ascend(y: int, m: int, d: int, y2: int, m2: int, d2: int)
    requires
        valid_date(y, m, d),
        valid_date(y2, m2, d2),
        y < y2 || (y == y2 && (m < m2 || (m == m2 && d < d2))),
    ensures
        day_number(y, m, d) < day_number(y2, m2, d2),
{
    law_months_add_up(y);
    lemma_months_ascend(y, m, 13);
    if y < y2 {
        lemma_years_ascend(y, y2);
        assert(days_before_month(y2, m2) >= 0) by {
            if m2 > 1 {
                lemma_months_ascend(y2, 1, m2);
            }
        }
    } else if m < m2 {
        lemma_months_ascend(y, m, m2);
    }
}

/// Every day has one date: no two dates have the same number of days before them.
pub proof fn law_date_is_unique(y: int, m: int, d: int, y2: int, m2: int, d2: int)
    requires
        valid_date(y, m, d),
        valid_date(y2, m2, d2),
        day_number(y, m, d) == day_number(y2, m2, d2),
    ensures
        y == y2 && m == m2 && d == d2,
{
    if y < y2 || (y == y2 && (m < m2 || (m == m2 && d < d2))) {
        lemma_dates_ascend(y, m, d, y2, m2, d2);
    }
    if y2 < y || (y2 == y && (m2 < m || (m2 == m && d2 < d))) {
        lemma_dates_ascend(y2, m2, d2, y, m, d);
    }
}

/// The days between the first of March of the year 0 of a cycle of 400 years and the first
/// of March of the year `yoe` of it.
spec fn cycle_days(yoe: int) -> int {
    365 * yoe + yoe / 4 - yoe / 100
}

/// The days between the first of March and the first of the month that is `mp` months later.
spec fn days_after_march(mp: int) -> int {
    (153 * mp + 2) / 5
}

proof fn lemma_year_of_cycle(doe: int, yoe: int)
    requires
        0 <= doe <= 146096,
        yoe == (doe - doe / 1460 + doe / 36524 - doe / 146096) / 365,
    ensures
        0 <= yoe <= 399,
        cycle_days(yoe) <= doe,
        yoe < 399 ==> doe < cycle_days(yoe + 1),
{
}

proof fn lemma_month_of_year(doy: int, mp: int)
    requires
        0 <= doy <= 365,
        mp == (5 * doy + 2) / 153,
    ensures
        0 <= mp <= 11,
        days_after_march(mp) <= doy,
        mp < 11 ==> doy < days_after_march(mp + 1),
{
}

proof fn lemma_months_after_march(y: int, mp: int)
    requires
        0 <= mp <= 11,
    ensures
        mp < 10 ==> days_before_month(y, mp + 3) == days_before_month(y, 3) + days_after_march(mp),
        days_before_month(y, 3) == 59 + (if is_leap(y) {
            1int
        } else {
            0
        }),
        mp < 10 ==> days_after_march(mp + 1) == days_after_march(mp) + month_len(y, mp + 3),
        mp == 10 ==> days_after_march(11) == days_after_march(10) + 31,
        days_before_month(y, 2) == 31,
        days_before_month(y, 1) == 0,
        days_after_march(10) == 306,
{
    reveal_with_fuel(days_before_month, 13);
}

proof fn lemma_year_start(era: int, yoe: int)
    requires
        0 <= era,
        0 <= yoe <= 399,
    ensures
        days_before_year(era * 400 + yoe + 1) == era * 146097 + cycle_days(yoe),
        yoe < 399 ==> cycle_days(yoe + 1) - cycle_days(yoe) == year_len(era * 400 + yoe + 1),
        yoe == 399 ==> 146097 - cycle_days(yoe) == year_len(era * 400 + yoe + 1),
{
    let y = era * 400 + yoe;
    assert(y / 4 == era * 100 + yoe / 4);
    assert(y / 100 == era * 4 + yoe / 100);
    assert(y / 400 == era);
    assert((y + 1) % 4 == (yoe + 1) % 4);
    assert((y + 1) % 100 == (yoe + 1) % 100);
    assert((y + 1) % 400 == (yoe + 1) % 400);
}

proof fn lemma_date(days: int, y: int, doy: int, mp: int)
    requires
        0 <= doy < year_len(y + 1),
        mp == (5 * doy + 2) / 153,
        days + days_before_year(1970) == days_before_year(y + 1) + doy - 306,
    ensures
        ({
            let m = if mp < 10 {
                mp + 3
            } else {
                mp - 9
            };
            let d = doy - days_after_march(mp) + 1;
            let year = if m <= 2 {
                y + 1
            } else {
                y
            };
            0 <= mp <= 11 && valid_date(year, m, d) && day_number(year, m, d) == days
        }),
{
    lemma_month_of_year(doy, mp);
    lemma_months_after_march(y, mp);
    lemma_months_after_march(y + 1, mp);
    law_years_add_up(y);
}

/// Turns seconds since the first of January 1970 in UTC into year, month, day, hour, minute
/// and second of China Standard Time, which is eight hours ahead.
pub fn format_cn_local(unix: u64) -> (r: (u64, u64, u64, u64, u64, u64))
    requires
        unix + 28800 <= u64::MAX,
    ensures
        valid_date(r.0 as int, r.1 as int, r.2 as int),
        r.3 < 24 && r.4 < 60 && r.5 < 60,
        day_number(r.0 as int, r.1 as int, r.2 as int) * 86400 + r.3 * 3600 + r.4 * 60 + r.5
            == unix + 8 * 3600,
{
    let total: u64 = unix + 28800;
    let days: u64 = total / 86400;
    let rem: u64 = total % 86400;
    let h: u64 = rem / 3600;
    let mi: u64 = rem % 3600 / 60;
    let s: u64 = rem % 60;
    let (y, m, d) = civil_from_days(days);
    (y, m, d, h, mi, s)
}

/// The date that lies `days` days after the first of January 1970. Years are counted from
/// the first of March, in cycles of 400 years.
fn civil_from_days(days: u64) -> (r: (u64, u64, u64))
    requires
        days <= u64::MAX / 86400,
    ensures
        valid_date(r.0 as int, r.1 as int, r.2 as int),
        day_number(r.0 as int, r.1 as int, r.2 as int) == days,
{
    let z: u64 = days + 719468;
    let era: u64 = z / 146097;
    let doe: u64 = z % 146097;
    let yoe: u64 = (doe - doe / 1460 + doe / 36524 - doe / 146096) / 365;
    proof {
        lemma_year_of_cycle(doe as int, yoe as int);
        lemma_year_start(era as int, yoe as int);
    }
    let y: u64 = yoe + era * 400;
    let doy: u64 = doe - (365 * yoe + yoe / 4 - yoe / 100);
    let mp: u64 = (5 * doy + 2) / 153;
    proof {
        assert(days_before_year(1970) == 719162);
        assert(z == era * 146097 + doe);
        lemma_date(days as int, y as int, doy as int, mp as int);
    }
    let d: u64 = doy - (153 * mp + 2) / 5 + 1;
    let m: u64 = if mp < 10 {
        mp + 3
    } else {
        mp - 9
    };
    let year: u64 = if m <= 2 {
        y + 1
    } else {
        y
    };
    (year, m, d)
}

// ---------------------------------------------------------------------------
// Log lines
// ---------------------------------------------------------------------------

/// A time stamp `year-month-day hour:minute:second`, each part with its usual width.
pub open spec fn stamp(y: nat, mo: nat, d: nat, h: nat, mi: nat, s: nat) -> Seq<char> {
    digits::padded_decimal(y, 4) + "-"@ + digits::padded_decimal(mo, 2) + "-"@
        + digits::padded_decimal(d, 2) + " "@ + digits::padded_decimal(h, 2) + ":"@
        + digits::padded_decimal(mi, 2) + ":"@ + digits::padded_decimal(s, 2)
}

/// Whether `t` is the time stamp of a moment, in China Standard Time.
pub open spec fn is_stamp(unix: int, t: Seq<char>) -> bool {
    exists|y: nat, mo: nat, d: nat, h: nat, mi: nat, s: nat|
        #![trigger stamp(y, mo, d, h, mi, s)]
        t == stamp(y, mo, d, h, mi, s) && valid_date(y as int, mo as int, d as int) && h < 24 && mi
            < 60 && s < 60 && day_number(y as int, mo as int, d as int) * 86400 + h * 3600 + mi * 60
            + s == unix + 8 * 3600
}

/// A log line: `[2026-09-01 08:00:00] [INFO] text`.
pub fn format_line(unix: u64, level: Level, text: &str) -> (r: String)
    requires
        unix + 28800 <= u64::MAX,
    ensures
        exists|t: Seq<char>| #[trigger]
            is_stamp(unix as int, t) && r@ == "["@ + t + "] ["@ + level_name(level) + "] "@ + text@,
{
    let (y, mo, d, h, mi, s) = format_cn_local(unix);
    let mut t = String::new();
    digits::push_padded_decimal(&mut t, y, 4);
    t.append("-");
    digits::push_padded_decimal(&mut t, mo, 2);
    t.append("-");
    digits::push_padded_decimal(&mut t, d, 2);
    t.append(" ");
    digits::push_padded_decimal(&mut t, h, 2);
    t.append(":");
    digits::push_padded_decimal(&mut t, mi, 2);
    t.append(":");
    digits::push_padded_decimal(&mut t, s, 2);
    assert(t@ =~= stamp(y as nat, mo as nat, d as nat, h as nat, mi as nat, s as nat));
    assert(is_stamp(unix as int, t@));
    let mut out = "[".to_owned();
    out.append(t.as_str());
    out.append("] [");
    out.append(level.as_str());
    out.append("] ");
    out.append(text);
    out
}

proof fn lemma_moment_is_unique(
    day: int,
    h: nat,
    mi: nat,
    s: nat,
    day2: int,
    h2: nat,
    mi2: nat,
    s2: nat,
)
    requires
        h < 24 && mi < 60 && s < 60,
        h2 < 24 && mi2 < 60 && s2 < 60,
        day * 86400 + h * 3600 + mi * 60 + s == day2 * 86400 + h2 * 3600 + mi2 * 60 + s2,
    ensures
        day == day2 && h == h2 && mi == mi2 && s == s2,
{
    lemma_parts_are_unique(86400, day, (h * 3600 + mi * 60 + s) as int, day2, (h2 * 3600 + mi2 * 60 + s2) as int);
    lemma_parts_are_unique(3600, h as int, (mi * 60 + s) as int, h2 as int, (mi2 * 60 + s2) as int);
    lemma_parts_are_unique(60, mi as int, s as int, mi2 as int, s2 as int);
}

proof fn lemma_parts_are_unique(unit: int, a: int, r: int, b: int, q: int)
    requires
        0 <= r < unit,
        0 <= q < unit,
        a * unit + r == b * unit + q,
    ensures
        a == b && r == q,
{
    if a < b {
        assert((b - a) * unit >= unit) by (nonlinear_arith)
            requires
                b - a >= 1,
                unit > 0,
        ;
        assert((b - a) * unit == b * unit - a * unit) by (nonlinear_arith);
    }
    if b < a {
        assert((a - b) * unit >= unit) by (nonlinear_arith)
            requires
                a - b >= 1,
                unit > 0,
        ;
        assert((a - b) * unit == a * unit - b * unit) by (nonlinear_arith);
    }
}

/// Every moment has one time stamp.
pub proof fn law_stamp_is_unique(unix: int, t: Seq<char>, u: Seq<char>)
    requires
        is_stamp(unix, t),
        is_stamp(unix, u),
    ensures
        t == u,
{
    let (y, mo, d, h, mi, s) = choose|y: nat, mo: nat, d: nat, h: nat, mi: nat, s: nat|
        #![trigger stamp(y, mo, d, h, mi, s)]
        t == stamp(y, mo, d, h, mi, s) && valid_date(y as int, mo as int, d as int) && h < 24 && mi
            < 60 && s < 60 && day_number(y as int, mo as int, d as int) * 86400 + h * 3600 + mi * 60
            + s == unix + 8 * 3600;
    let (y2, mo2, d2, h2, mi2, s2) = choose|y: nat, mo: nat, d: nat, h: nat, mi: nat, s: nat|
        #![trigger stamp(y, mo, d, h, mi, s)]
        u == stamp(y, mo, d, h, mi, s) && valid_date(y as int, mo as int, d as int) && h < 24 && mi
            < 60 && s < 60 && day_number(y as int, mo as int, d as int) * 86400 + h * 3600 + mi * 60
            + s == unix + 8 * 3600;
    lemma_moment_is_unique(
        day_number(y as int, mo as int, d as int),
        h,
        mi,
        s,
        day_number(y2 as int, mo2 as int, d2 as int),
        h2,
        mi2,
        s2,
    );
    law_date_is_unique(y as int, mo as int, d as int, y2 as int, mo2 as int, d2 as int);
}

/// The calendar starts with the first of January 1970, and day follows on day: the next one of
/// the month, the first of the next month, or the first of January of the next year.
pub proof fn law_day_after_day(y: int, m: int, d: int)
    requires
        valid_date(y, m, d),
    ensures
        day_number(1970, 1, 1) == 0,
        d < month_len(y, m) ==> valid_date(y, m, d + 1) && day_number(y, m, d + 1) == day_number(
            y,
            m,
            d,
        ) + 1,
        d == month_len(y, m) && m < 12 ==> valid_date(y, m + 1, 1) && day_number(y, m + 1, 1)
            == day_number(y, m, d) + 1,
        d == month_len(y, m) && m == 12 ==> valid_date(y + 1, 1, 1) && day_number(y + 1, 1, 1)
            == day_number(y, m, d) + 1,
{
    law_months_add_up(y);
    law_years_add_up(y);
    assert(days_before_month(y, 1) == 0);
    assert(days_before_month(y + 1, 1) == 0);
    assert(days_before_month(1970, 1) == 0);
    assert(days_before_month(y, m + 1) == days_before_month(y, m) + month_len(y, m));
}

/// How long the months are: February has 29 days in every fourth year, but of the full
/// centuries only in every fourth.
pub proof fn law_months(c: int, y: int)
    requires
        0 <= y <= 99,
    ensures
        month_len(100 * c + y, 1) == 31 && month_len(100 * c + y, 3) == 31,
        month_len(100 * c + y, 4) == 30 && month_len(100 * c + y, 5) == 31,
        month_len(100 * c + y, 6) == 30 && month_len(100 * c + y, 7) == 31,
        month_len(100 * c + y, 8) == 31 && month_len(100 * c + y, 9) == 30,
        month_len(100 * c + y, 10) == 31 && month_len(100 * c + y, 11) == 30,
        month_len(100 * c + y, 12) == 31,
        y > 0 ==> month_len(100 * c + y, 2) == (if y % 4 == 0 {
            29int
        } else {
            28
        }),
        y == 0 ==> month_len(100 * c + y, 2) == (if c % 4 == 0 {
            29int
        } else {
            28
        }),
{
    let n = 100 * c + y;
    assert(n % 100 == y);
    assert(n % 4 == y % 4);
    if y == 0 {
        assert((100 * c) % 400 == 100 * (c % 4));
    }
}

/// A time stamp has its parts where they belong, each with as many digits as it takes, and
/// nothing else but the marks between them.
pub proof fn law_stamp(y: nat, mo: nat, d: nat, h: nat, mi: nat, s: nat)
    requires
        y < 10000 && mo < 100 && d < 100 && h < 100 && mi < 100 && s < 100,
    ensures
        ({
            let t = stamp(y, mo, d, h, mi, s);
            &&& t.len() == 19
            &&& t[4] == '-' && t[7] == '-' && t[10] == ' ' && t[13] == ':' && t[16] == ':'
            &&& digits::read_uint(t.subrange(0, 4), 9999) == Some(y as int)
            &&& digits::read_uint(t.subrange(5, 7), 99) == Some(mo as int)
            &&& digits::read_uint(t.subrange(8, 10), 99) == Some(d as int)
            &&& digits::read_uint(t.subrange(11, 13), 99) == Some(h as int)
            &&& digits::read_uint(t.subrange(14, 16), 99) == Some(mi as int)
            &&& digits::read_uint(t.subrange(17, 19), 99) == Some(s as int)
        }),
{
    reveal_strlit("-");
    reveal_strlit(" ");
    reveal_strlit(":");
    let t = stamp(y, mo, d, h, mi, s);
    lemma_padded_reads_back(y, 4);
    lemma_padded_reads_back(mo, 2);
    lemma_padded_reads_back(d, 2);
    lemma_padded_reads_back(h, 2);
    lemma_padded_reads_back(mi, 2);
    lemma_padded_reads_back(s, 2);
    assert(t.subrange(0, 4) =~= digits::padded_decimal(y, 4));
    assert(t.subrange(5, 7) =~= digits::padded_decimal(mo, 2));
    assert(t.subrange(8, 10) =~= digits::padded_decimal(d, 2));
    assert(t.subrange(11, 13) =~= digits::padded_decimal(h, 2));
    assert(t.subrange(14, 16) =~= digits::padded_decimal(mi, 2));
    assert(t.subrange(17, 19) =~= digits::padded_decimal(s, 2));
}

proof fn lemma_padded_reads_back(n: nat, width: int)
    requires
        width == 2 && n < 100 || width == 4 && n < 10000,
    ensures
        digits::padded_decimal(n, width).len() == width,
        digits::read_uint(
            digits::padded_decimal(n, width),
            if width == 2 {
                99
            } else {
                9999
            },
        ) == Some(n as int),
{
    reveal_with_fuel(digits::decimal, 5);
    digits::law_padded(n, width);
    let t = digits::padded_decimal(n, width);
    assert(digits::is_digit(t[0]));
}

}
