//! The `time.*` operations that need no clock: the calendar, in UTC, proleptic
//! Gregorian.

use vstd::prelude::*;

use crate::cstr::lossy;
use crate::shf::trim_line_ends;
use crate::string::TaggedStr;
use crate::trust::{TAINTED, TRUSTED};
#[allow(unused_imports)]
use crate::cstr::{emits, lossy_text};
#[allow(unused_imports)]
use crate::shf::without_line_ends;

use crate::coll::DictObj;
use crate::gc::Heap;
use crate::obj::Obj;
use crate::text::digits_of;
use crate::value::JadeValue;
#[allow(unused_imports)]
use crate::gc::{points_at, word_roundtrip, MAX_CELLS};
#[allow(unused_imports)]
use crate::obj::Cell;
#[allow(unused_imports)]
use crate::text::{decimal_nat, digit_char, lex_less};
#[allow(unused_imports)]
use crate::value::{decode, wrap63, Val};
#[allow(unused_imports)]
use crate::gc::fresh_from;
#[allow(unused_imports)]
use crate::heap::ObjKind;

verus! {

/// Seconds in a day.
pub const DAY: i64 = 86_400;

// ── The calendar ─────────────────────────────────────────────────────────────

/// The Gregorian rule.
pub open spec fn is_leap(y: int) -> bool {
    y % 4 == 0 && (y % 100 != 0 || y % 400 == 0)
}

/// One day more in a leap year.
pub open spec fn leap_day(y: int) -> int {
    if is_leap(y) {
        1
    } else {
        0
    }
}

/// How many leap years lie in the years from 1 to `y`.
pub open spec fn leaps_to(y: int) -> int {
    y / 4 - y / 100 + y / 400
}

/// The days from 1970-01-01 to the first of January of `y`.
pub open spec fn year_start(y: int) -> int {
    365 * (y - 1970) + leaps_to(y - 1) - leaps_to(1969)
}

/// The length of month `m` of the year `y`.
pub open spec fn month_len(y: int, m: int) -> int {
    if m == 2 {
        28 + leap_day(y)
    } else if m == 4 || m == 6 || m == 9 || m == 11 {
        30
    } else {
        31
    }
}

/// The days of the year `y` before month `m`.
pub open spec fn month_start(y: int, m: int) -> int
    decreases m,
{
    if m <= 1 {
        0
    } else {
        month_start(y, m - 1) + month_len(y, m - 1)
    }
}

/// The days from 1970-01-01 to day `d` of month `m` of the year `y`. The day may lie
/// outside the month: it carries.
pub open spec fn day_number(y: int, m: int, d: int) -> int {
    year_start(y) + month_start(y, m) + d - 1
}

/// The day is one of its month, and the month one of the year.
pub open spec fn is_date(y: int, m: int, d: int) -> bool {
    1 <= m <= 12 && 1 <= d <= month_len(y, m)
}

/// The leap years up to a year are those before it, and it.
proof fn leaps_step(y: int)
    ensures
        leaps_to(y) == leaps_to(y - 1) + leap_day(y),
{
    let q = y / 400;
    let r = y % 400;
    assert(y == 400 * q + r);
    assert(y / 4 == 100 * q + r / 4);
    assert(y / 100 == 4 * q + r / 100);
    assert((y - 1) / 4 == 100 * q + (r - 1) / 4);
    assert((y - 1) / 100 == 4 * q + (r - 1) / 100);
    assert((y - 1) / 400 == q + (r - 1) / 400);
    assert(y % 4 == r % 4);
    assert(y % 100 == r % 100);
}

/// A year has 365 days, and a leap year one more.
pub proof fn year_lengths(y: int)
    ensures
        year_start(y + 1) - year_start(y) == 365 + leap_day(y),
{
    leaps_step(y);
}

/// The months of a year fill it.
pub proof fn months_fill_the_year(y: int)
    ensures
        month_start(y, 13) == 365 + leap_day(y),
{
    month_starts(y);
}

/// Where the months of a year begin.
proof fn month_starts(y: int)
    ensures
        month_start(y, 1) == 0,
        month_start(y, 2) == 31,
        month_start(y, 3) == 59 + leap_day(y),
        month_start(y, 4) == 90 + leap_day(y),
        month_start(y, 5) == 120 + leap_day(y),
        month_start(y, 6) == 151 + leap_day(y),
        month_start(y, 7) == 181 + leap_day(y),
        month_start(y, 8) == 212 + leap_day(y),
        month_start(y, 9) == 243 + leap_day(y),
        month_start(y, 10) == 273 + leap_day(y),
        month_start(y, 11) == 304 + leap_day(y),
        month_start(y, 12) == 334 + leap_day(y),
        month_start(y, 13) == 365 + leap_day(y),
{
    reveal_with_fuel(month_start, 14);
}

/// The first of March of a year, by its place in a cycle of 400 years.
proof fn march_first(era: int, k: int)
    requires
        0 <= k < 400,
    ensures
        day_number(400 * era + k, 3, 1) == 146_097 * era + 365 * k + k / 4 - k / 100 - 719_468,
        year_start(400 * era + k + 1) == day_number(400 * era + k, 3, 1) + 306,
{
    let y = 400 * era + k;
    leaps_step(y);
    month_starts(y);
    year_lengths(y);
    assert(y / 4 == 100 * era + k / 4);
    assert(y / 100 == 4 * era + k / 100);
    assert(y / 400 == era);
}

/// Where a month of a year that begins in March begins.
spec fn march_month(mp: int) -> int {
    (153 * mp + 2) / 5
}

/// Months counted from March begin where the calendar's do.
proof fn march_months(y: int, m: int)
    requires
        1 <= m <= 12,
    ensures
        m >= 3 ==> march_month(m - 3) == month_start(y, m) - month_start(y, 3),
        m <= 2 ==> march_month(m + 9) == 306 + month_start(y, m),
{
    month_starts(y);
}

/// `a` divided by `b`, rounded down.
fn floor_div(a: i128, b: i128) -> (r: i128)
    requires
        b > 0,
        -0x1_0000_0000_0000_0000_0000_0000i128 < a < 0x1_0000_0000_0000_0000_0000_0000i128,
    ensures
        r == a as int / b as int,
{
    if a >= 0 {
        a / b
    } else {
        let c: i128 = -(a + 1);
        let q: i128 = c / b;
        proof {
            let ai = a as int;
            let bi = b as int;
            let ci = c as int;
            assert(ai / bi == -1 - ci / bi) by (nonlinear_arith)
                requires
                    bi > 0,
                    ci == -(ai + 1),
                    ci >= 0,
            ;
            assert(0 <= ci / bi <= ci) by (nonlinear_arith)
                requires
                    bi > 0,
                    ci >= 0,
            ;
        }
        -1 - q
    }
}

/// The days from 1970-01-01 to a date; the day may lie outside its month.
pub fn days_from_civil(y: i128, m: i128, d: i128) -> (r: i128)
    requires
        -0x1_0000_0000_0000_0000i128 <= y <= 0x1_0000_0000_0000_0000i128,
        1 <= m <= 12,
        -0x1_0000_0000_0000_0000i128 <= d <= 0x1_0000_0000_0000_0000i128,
    ensures
        r == day_number(y as int, m as int, d as int),
{
    let yy: i128 = if m <= 2 {
        y - 1
    } else {
        y
    };
    let era: i128 = floor_div(yy, 400);
    let yoe: i128 = yy - era * 400;
    let mp: i128 = if m <= 2 {
        m + 9
    } else {
        m - 3
    };
    let doy: i128 = (153 * mp + 2) / 5 + d - 1;
    let doe: i128 = yoe * 365 + yoe / 4 - yoe / 100 + doy;
    proof {
        march_first(era as int, yoe as int);
        march_months(y as int, m as int);
        assert(yy == 400 * era + yoe);
        month_starts(yy as int);
    }
    era * 146_097 + doe - 719_468
}

/// The year of a cycle that begins in March, and the day of that year, for a day of the
/// cycle. A 366th day comes only before a leap year.
fn split_cycle(doe: i64) -> (r: (i64, i64))
    requires
        0 <= doe < 146_097,
    ensures
        0 <= r.0 < 400,
        0 <= r.1 <= 365,
        doe == 365 * r.0 + r.0 / 4 - r.0 / 100 + r.1,
        r.1 == 365 ==> (r.0 + 1) % 4 == 0 && ((r.0 + 1) % 100 != 0 || r.0 == 399),
{
    let c: i64 = if doe / 36_524 < 3 {
        doe / 36_524
    } else {
        3
    };
    let rest: i64 = doe - 36_524 * c;
    assert(0 <= rest <= 36_524);
    assert(rest == 36_524 ==> c == 3);
    let q: i64 = rest / 1_461;
    let s: i64 = rest - 1_461 * q;
    assert(0 <= q <= 24);
    assert(0 <= s <= 1_460);
    let k: i64 = if s / 365 < 3 {
        s / 365
    } else {
        3
    };
    let yoe: i64 = 100 * c + 4 * q + k;
    let doy: i64 = s - 365 * k;
    proof {
        cycle_year(c as int, q as int, k as int);
        if doy == 365 {
            assert(k == 3 && s == 1_460);
            if q == 24 {
                assert(c == 3);
            } else {
                assert((yoe + 1) % 100 == 4 * q + 4);
            }
        }
    }
    (yoe, doy)
}

/// The parts of a year's place in a cycle.
proof fn cycle_year(c: int, q: int, k: int)
    requires
        0 <= c <= 3,
        0 <= q <= 24,
        0 <= k <= 3,
    ensures
        (100 * c + 4 * q + k) / 4 == 25 * c + q,
        (100 * c + 4 * q + k) / 100 == c,
{
}

/// What is a leap year in the first cycle is one in every cycle.
proof fn leap_in_every_cycle(era: int, k: int)
    requires
        0 <= k < 400,
        (k + 1) % 4 == 0,
        (k + 1) % 100 != 0 || k == 399,
    ensures
        is_leap(400 * era + k + 1),
{
    let y = 400 * era + k + 1;
    assert(y % 4 == (k + 1) % 4);
    if k == 399 {
        assert(y == 400 * (era + 1));
        assert(y % 400 == 0);
    } else {
        assert(y % 100 == (k + 1) % 100);
    }
}

/// The date that lies `z` days behind 1970-01-01.
pub fn civil_from_days(z: i64) -> (r: (i64, i64, i64))
    requires
        -0x0100_0000_0000_0000 <= z <= 0x0100_0000_0000_0000,
    ensures
        is_date(r.0 as int, r.1 as int, r.2 as int),
        day_number(r.0 as int, r.1 as int, r.2 as int) == z,
        -0x0100_0000_0000_0000 <= r.0 <= 0x0100_0000_0000_0000,
{
    let shifted: i64 = z + 719_468;
    let era: i64 = floor_div(shifted as i128, 146_097) as i64;
    assert(0 <= shifted - 146_097 * era < 146_097);
    let (yoe, doy) = split_cycle(shifted - era * 146_097);
    let mp: i64 = (5 * doy + 2) / 153;
    assert(0 <= mp <= 11);
    let d: i64 = doy - (153 * mp + 2) / 5 + 1;
    let march_year: i64 = yoe + era * 400;
    let m: i64 = if mp < 10 {
        mp + 3
    } else {
        mp - 9
    };
    let y: i64 = if m <= 2 {
        march_year + 1
    } else {
        march_year
    };
    proof {
        found_date(era as int, yoe as int, doy as int, mp as int, m as int, y as int);
    }
    (y, m, d)
}

/// The date of a day of a year that begins in March.
proof fn found_date(era: int, yoe: int, doy: int, mp: int, m: int, y: int)
    requires
        0 <= yoe < 400,
        0 <= doy <= 365,
        doy == 365 ==> (yoe + 1) % 4 == 0 && ((yoe + 1) % 100 != 0 || yoe == 399),
        mp == (5 * doy + 2) / 153,
        m == if mp < 10 {
            mp + 3
        } else {
            mp - 9
        },
        y == if m <= 2 {
            400 * era + yoe + 1
        } else {
            400 * era + yoe
        },
    ensures
        ({
            let d = doy - (153 * mp + 2) / 5 + 1;
            &&& is_date(y, m, d)
            &&& day_number(y, m, d) == 146_097 * era + 365 * yoe + yoe / 4 - yoe / 100 + doy
                - 719_468
        }),
{
    march_first(era, yoe);
    if doy == 365 {
        leap_in_every_cycle(era, yoe);
    }
    assert(doy == 365 ==> mp == 11);
    month_ends(y, mp, m, doy);
    march_months(y, m);
    month_starts(400 * era + yoe);
    month_starts(y);
}

/// A day of a year that begins in March lies in its month.
proof fn month_ends(y: int, mp: int, m: int, doy: int)
    requires
        0 <= doy <= 365,
        mp == (5 * doy + 2) / 153,
        m == if mp < 10 {
            mp + 3
        } else {
            mp - 9
        },
        doy == 365 ==> is_leap(y),
    ensures
        0 <= mp <= 11,
        doy - (153 * mp + 2) / 5 + 1 <= month_len(y, m),
{
    if mp == 0 {
    } else if mp == 1 {
    } else if mp == 2 {
    } else if mp == 3 {
    } else if mp == 4 {
    } else if mp == 5 {
    } else if mp == 6 {
    } else if mp == 7 {
    } else if mp == 8 {
    } else if mp == 9 {
    } else if mp == 10 {
    } else {
        assert(mp == 11);
    }
}

/// A timestamp in calendar fields, all UTC. `weekday` counts from Sunday as 0, and
/// `yearday` from 1.
#[derive(Debug, Clone, Copy, PartialEq, Eq, Structural)]
pub struct TimeParts {
    /// The year.
    pub year: i64,
    /// The month, from 1.
    pub month: i64,
    /// The day of the month, from 1.
    pub day: i64,
    /// The hour.
    pub hour: i64,
    /// The minute.
    pub minute: i64,
    /// The second.
    pub second: i64,
    /// The day of the week, from Sunday as 0.
    pub weekday: i64,
    /// The day of the year, from 1.
    pub yearday: i64,
}

/// The fields are those of the timestamp.
pub open spec fn are_parts_of(p: TimeParts, ts: int) -> bool {
    let days = ts / 86_400;
    let secs = ts % 86_400;
    &&& is_date(p.year as int, p.month as int, p.day as int)
    &&& day_number(p.year as int, p.month as int, p.day as int) == days
    &&& p.hour == secs / 3_600
    &&& p.minute == (secs / 60) % 60
    &&& p.second == secs % 60
    &&& p.weekday == (days + 4) % 7
    &&& p.yearday == days - year_start(p.year as int) + 1
}

impl TimeParts {
    /// The fields by name, in the order a dict has them.
    pub fn fields(&self) -> (r: [(&'static str, i64); 8])
        ensures
            r@[0].0@ == "year"@ && r@[0].1 == self.year,
            r@[1].0@ == "month"@ && r@[1].1 == self.month,
            r@[2].0@ == "day"@ && r@[2].1 == self.day,
            r@[3].0@ == "hour"@ && r@[3].1 == self.hour,
            r@[4].0@ == "minute"@ && r@[4].1 == self.minute,
            r@[5].0@ == "second"@ && r@[5].1 == self.second,
            r@[6].0@ == "weekday"@ && r@[6].1 == self.weekday,
            r@[7].0@ == "yearday"@ && r@[7].1 == self.yearday,
    {
        [
            ("year", self.year),
            ("month", self.month),
            ("day", self.day),
            ("hour", self.hour),
            ("minute", self.minute),
            ("second", self.second),
            ("weekday", self.weekday),
            ("yearday", self.yearday),
        ]
    }
}

/// Break a Unix timestamp into calendar fields. A time before 1970 lands on its day.
pub fn parts(ts: i64) -> (p: TimeParts)
    ensures
        are_parts_of(p, ts as int),
        1 <= p.yearday <= 366,
        0 <= p.weekday <= 6,
        0 <= p.hour <= 23,
        0 <= p.minute <= 59,
        0 <= p.second <= 59,
{
    let days: i64 = floor_div(ts as i128, 86_400) as i64;
    let secs: i64 = (ts as i128 - days as i128 * 86_400) as i64;
    let (year, month, day) = civil_from_days(days);
    let first: i128 = days_from_civil(year as i128, 1, 1);
    let yearday: i64 = (days as i128 - first + 1) as i64;
    let weekday: i64 = (days as i128 + 4 - 7 * floor_div(days as i128 + 4, 7)) as i64;
    proof {
        month_starts(year as int);
        days_of_the_year(year as int, month as int, day as int);
    }
    TimeParts {
        year,
        month,
        day,
        hour: secs / 3_600,
        minute: (secs / 60) % 60,
        second: secs % 60,
        weekday,
        yearday,
    }
}

/// A date lies in its year.
proof fn days_of_the_year(y: int, m: int, d: int)
    requires
        is_date(y, m, d),
    ensures
        0 <= month_start(y, m) + d - 1 < 365 + leap_day(y),
{
    month_starts(y);
}

// ── Timestamps ───────────────────────────────────────────────────────────────

/// The nearest 64-bit integer.
pub open spec fn clamp64(i: int) -> int {
    if i < i64::MIN {
        i64::MIN as int
    } else if i > i64::MAX {
        i64::MAX as int
    } else {
        i
    }
}

/// The timestamp of calendar fields, each of which may lie outside its range and then
/// carries. What 64 bits do not hold stops at their end, step by step.
pub open spec fn stamp_of(y: int, mo: int, d: int, h: int, mi: int, s: int) -> int {
    let year = clamp64(y + (mo - 1) / 12);
    let month = (mo - 1) % 12 + 1;
    let days = clamp64(day_number(year, month, d));
    clamp64(
        clamp64(clamp64(clamp64(days * 86_400) + clamp64(h * 3_600)) + clamp64(mi * 60)) + s,
    )
}

/// The nearest 64-bit integer.
fn clamp(i: i128) -> (r: i64)
    ensures
        r == clamp64(i as int),
{
    if i < i64::MIN as i128 {
        i64::MIN
    } else if i > i64::MAX as i128 {
        i64::MAX
    } else {
        i as i64
    }
}

/// A Unix timestamp from calendar fields. Fields out of range carry: month 13 is next
/// January, day 0 the last day of the month before, and hour 25 tomorrow at one.
pub fn stamp(y: i64, mo: i64, d: i64, h: i64, mi: i64, s: i64) -> (r: i64)
    ensures
        r == stamp_of(y as int, mo as int, d as int, h as int, mi as int, s as int),
{
    let m0: i128 = mo as i128 - 1;
    let carry: i128 = floor_div(m0, 12);
    let month: i128 = m0 - 12 * carry + 1;
    let year: i64 = clamp(y as i128 + carry);
    let days: i64 = clamp(days_from_civil(year as i128, month, d as i128));
    let a: i64 = clamp(days as i128 * 86_400);
    let b: i64 = clamp(a as i128 + clamp(h as i128 * 3_600) as i128);
    let c: i64 = clamp(b as i128 + clamp(mi as i128 * 60) as i128);
    clamp(c as i128 + s as i128)
}

// ── Text ─────────────────────────────────────────────────────────────────────

/// Zeros.
pub open spec fn zeros(n: int) -> Seq<char>
    decreases n,
{
    if n <= 0 {
        seq![]
    } else {
        zeros(n - 1).push('0')
    }
}

/// An integer with zeros before its digits, so that it is at least `width` long, a sign
/// included.
pub open spec fn zero_padded(i: int, width: int) -> Seq<char> {
    if i < 0 {
        let d = decimal_nat((-i) as nat);
        seq!['-'] + zeros(width - 1 - d.len()) + d
    } else {
        let d = decimal_nat(i as nat);
        zeros(width - d.len()) + d
    }
}

/// Append an integer with zeros before its digits.
fn put_padded(out: &mut String, i: i64, width: usize)
    requires
        i > i64::MIN,
    ensures
        final(out)@ == old(out)@ + zero_padded(i as int, width as int),
{
    let mut left: usize = width;
    let n: u64 = if i < 0 {
        out.push('-');
        if left > 0 {
            left = left - 1;
        }
        (-i) as u64
    } else {
        i as u64
    };
    let digits = digits_of(n);
    let ghost start = out@;
    let pad: usize = if left > digits.len() {
        left - digits.len()
    } else {
        0
    };
    let mut k: usize = 0;
    assert(start + zeros(0) =~= start);
    while k < pad
        invariant
            k <= pad,
            out@ == start + zeros(k as int),
        decreases pad - k,
    {
        out.push('0');
        k += 1;
        assert(out@ =~= start + zeros(k as int));
    }
    proof {
        no_zeros(pad as int, left - digits@.len());
        no_zeros(left - digits@.len(), left - digits@.len());
        if i < 0 {
            no_zeros(width - 1 - digits@.len(), left - digits@.len());
        }
    }
    let ghost mid = out@;
    let mut j: usize = 0;
    while j < digits.len()
        invariant
            j <= digits@.len(),
            out@ == mid + digits@.subrange(0, j as int),
        decreases digits@.len() - j,
    {
        out.push(digits[j]);
        j += 1;
        assert(out@ =~= mid + digits@.subrange(0, j as int));
    }
    assert(digits@.subrange(0, j as int) =~= digits@);
    assert(out@ =~= old(out)@ + zero_padded(i as int, width as int));
}

/// No zeros are no zeros, however few are asked for.
proof fn no_zeros(a: int, b: int)
    requires
        a == b || (a <= 0 && b <= 0),
    ensures
        zeros(a) == zeros(b),
{
}

/// What `time.utc` prints of calendar fields.
pub open spec fn iso_text(p: TimeParts) -> Seq<char> {
    zero_padded(p.year as int, 4) + "-"@ + zero_padded(p.month as int, 2) + "-"@ + zero_padded(
        p.day as int,
        2,
    ) + "T"@ + zero_padded(p.hour as int, 2) + ":"@ + zero_padded(p.minute as int, 2) + ":"@
        + zero_padded(p.second as int, 2) + "Z"@
}

/// A Unix timestamp as ISO 8601 text, such as `2026-08-16T14:03:22Z`.
pub fn utc(ts: i64) -> (r: String)
    ensures
        exists|p: TimeParts| #[trigger] are_parts_of(p, ts as int) && r@ == iso_text(p),
{
    let p = parts(ts);
    let mut s = String::new();
    put_padded(&mut s, p.year, 4);
    assert(s@ =~= zero_padded(p.year as int, 4));
    s.append("-");
    put_padded(&mut s, p.month, 2);
    s.append("-");
    put_padded(&mut s, p.day, 2);
    s.append("T");
    put_padded(&mut s, p.hour, 2);
    s.append(":");
    put_padded(&mut s, p.minute, 2);
    s.append(":");
    put_padded(&mut s, p.second, 2);
    s.append("Z");
    assert(are_parts_of(p, ts as int) && s@ == iso_text(p));
    s
}

// ── Dicts ────────────────────────────────────────────────────────────────────

/// The fields by name, as mathematics.
pub open spec fn named_fields(p: TimeParts) -> Seq<(Seq<char>, i64)> {
    seq![
        ("year"@, p.year),
        ("month"@, p.month),
        ("day"@, p.day),
        ("hour"@, p.hour),
        ("minute"@, p.minute),
        ("second"@, p.second),
        ("weekday"@, p.weekday),
        ("yearday"@, p.yearday),
    ]
}

/// The entries hold the fields as integer words, in order.
pub open spec fn holds_fields(d: Seq<(Seq<char>, i64)>, f: Seq<(Seq<char>, i64)>) -> bool {
    &&& d.len() == f.len()
    &&& forall|i: int|
        0 <= i < f.len() ==> (#[trigger] d[i]).0 == f[i].0 && decode(d[i].1 as u64) == Val::Int(
            wrap63(f[i].1 as int),
        )
}

/// No two fields share a name.
proof fn names_differ()
    ensures
        forall|p: TimeParts, i: int, j: int|
            0 <= i < j < 8 ==> (#[trigger] named_fields(p)[i]).0 != (#[trigger] named_fields(
                p,
            )[j]).0,
{
    reveal_strlit("year");
    reveal_strlit("month");
    reveal_strlit("day");
    reveal_strlit("hour");
    reveal_strlit("minute");
    reveal_strlit("second");
    reveal_strlit("weekday");
    reveal_strlit("yearday");
    assert forall|p: TimeParts, i: int, j: int| 0 <= i < j < 8 implies (#[trigger] named_fields(
        p,
    )[i]).0 != (#[trigger] named_fields(p)[j]).0 by {
        let a = named_fields(p)[i].0;
        let b = named_fields(p)[j].0;
        if a.len() == b.len() {
            assert(a[0] != b[0] || a[1] != b[1] || a[2] != b[2]);
        }
    }
}

/// `time.parts(ts)`: a dict of the calendar fields.
pub fn jrt_time_parts(h: &mut Heap, ts: i64) -> (w: i64)
    requires
        old(h).wf(),
        old(h).cells@.len() < MAX_CELLS,
    ensures
        final(h).wf(),
        final(h).rc_on == old(h).rc_on,
        final(h).cells@.len() == old(h).cells@.len() + 1,
        final(h).cells@.drop_last() == old(h).cells@,
        points_at(w) == old(h).cells@.len(),
        exists|p: TimeParts| #[trigger]
            are_parts_of(p, ts as int) && (final(h).cells@.last() matches Cell::Obj(
                Obj::Dict(d),
            ) && holds_fields(d@, named_fields(p))),
        fresh_from(final(h).cells@, old(h).cells@.len() as int),
{
    let p = parts(ts);
    let fields = p.fields();
    let mut d = DictObj::new();
    let ghost want = named_fields(p);
    let mut i: usize = 0;
    proof {
        names_differ();
    }
    while i < 8
        invariant
            i <= 8,
            d.wf(),
            d.header.fresh(ObjKind::Dict),
            d@.len() == i,
            want == named_fields(p),
            forall|k: int, j: int|
                0 <= k < j < 8 ==> (#[trigger] want[k]).0 != (#[trigger] want[j]).0,
            forall|k: int|
                0 <= k < 8 ==> (#[trigger] fields@[k]).0@ == want[k].0 && fields@[k].1
                    == want[k].1,
            forall|k: int|
                0 <= k < i ==> (#[trigger] d@[k]).0 == want[k].0 && decode(d@[k].1 as u64)
                    == Val::Int(wrap63(want[k].1 as int)),
        decreases 8 - i,
    {
        let v = JadeValue::from_int(fields[i].1);
        let w: i64 = v.word();
        proof {
            word_roundtrip(v.bits);
            assert(fields@[i as int].0@ == want[i as int].0);
            assert forall|k: int| 0 <= k < d@.len() implies d@[k].0 != want[i as int].0 by {
                assert(d@[k].0 == want[k].0);
            }
        }
        let ghost before = d@;
        d.insert(fields[i].0, w);
        assert(d@ == before.push((want[i as int].0, w)));
        i += 1;
    }
    let ghost dv = d@;
    assert(holds_fields(dv, want));
    let w: i64 = h.leak_obj(Obj::Dict(d));
    assert(h.cells@.drop_last() =~= old(h).cells@);
    w
}

/// What `time.local` hands on: the formatted time, which another program wrote, or
/// nothing when that program did not start.
pub fn jrt_time_local(written: Option<&[u8]>) -> (r: TaggedStr)
    ensures
        emits(
            r,
            match written {
                Some(b) => without_line_ends(lossy_text(b@)),
                None => seq![],
            },
            TAINTED,
        ),
{
    match written {
        Some(b) => TaggedStr::new(local(b), TAINTED),
        None => TaggedStr::new(String::new(), TAINTED),
    }
}

/// What `time.utc` hands on: computed here, and so trusted.
pub fn jrt_time_utc(ts: i64) -> (r: TaggedStr)
    ensures
        exists|p: TimeParts| #[trigger]
            are_parts_of(p, ts as int) && emits(r, iso_text(p), TRUSTED),
{
    TaggedStr::new(utc(ts), TRUSTED)
}

// ── Laws ─────────────────────────────────────────────────────────────────────

/// A date is the only one of its day number.
pub proof fn dates_are_unique(y: int, m: int, d: int, y2: int, m2: int, d2: int)
    requires
        is_date(y, m, d),
        is_date(y2, m2, d2),
        day_number(y, m, d) == day_number(y2, m2, d2),
    ensures
        y == y2 && m == m2 && d == d2,
{
    days_of_the_year(y, m, d);
    days_of_the_year(y2, m2, d2);
    if y < y2 {
        years_ascend(y + 1, y2);
        year_lengths(y);
    } else if y2 < y {
        years_ascend(y2 + 1, y);
        year_lengths(y2);
    } else {
        month_starts(y);
    }
}

/// A later year begins later.
proof fn years_ascend(a: int, b: int)
    requires
        a <= b,
    ensures
        year_start(a) <= year_start(b),
    decreases b - a,
{
    if a < b {
        years_ascend(a, b - 1);
        year_lengths(b - 1);
    }
}

/// The fields of a timestamp are determined by it.
pub proof fn parts_are_unique(p: TimeParts, q: TimeParts, ts: int)
    requires
        are_parts_of(p, ts),
        are_parts_of(q, ts),
    ensures
        p == q,
{
    dates_are_unique(
        p.year as int,
        p.month as int,
        p.day as int,
        q.year as int,
        q.month as int,
        q.day as int,
    );
}

/// Stamping the fields of a timestamp gives the timestamp back.
pub proof fn stamp_undoes_parts(p: TimeParts, ts: int)
    requires
        i64::MIN <= ts <= i64::MAX,
        are_parts_of(p, ts),
        ts / 86_400 * 86_400 >= i64::MIN,
    ensures
        stamp_of(
            p.year as int,
            p.month as int,
            p.day as int,
            p.hour as int,
            p.minute as int,
            p.second as int,
        ) == ts,
{
    let days = ts / 86_400;
    let secs = ts % 86_400;
    assert((p.month - 1) / 12 == 0);
    assert((p.month - 1) % 12 == p.month - 1);
    assert(secs == 3_600 * (secs / 3_600) + 60 * ((secs / 60) % 60) + secs % 60);
}

/// Two digits.
spec fn two(i: int) -> Seq<char> {
    seq![digit_char(i / 10), digit_char(i % 10)]
}

/// A number below a hundred is printed in two digits.
proof fn padded_two(i: int)
    requires
        0 <= i < 100,
    ensures
        zero_padded(i, 2) == two(i),
{
    reveal_with_fuel(decimal_nat, 2);
    reveal_with_fuel(zeros, 2);
    assert(zero_padded(i, 2) =~= two(i));
}

/// A number below ten thousand is printed in four digits.
proof fn padded_four(i: int)
    requires
        0 <= i < 10_000,
    ensures
        zero_padded(i, 4) == two(i / 100) + two(i % 100),
{
    reveal_with_fuel(decimal_nat, 4);
    reveal_with_fuel(zeros, 4);
    assert(i / 10 / 10 == i / 100);
    assert(i / 100 / 10 == i / 1000);
    assert((i / 10) % 10 == (i % 100) / 10);
    assert(i % 10 == (i % 100) % 10);
    assert(zero_padded(i, 4) =~= two(i / 100) + two(i % 100));
}

/// The fields of a printed timestamp in pairs of digits, the larger units first.
spec fn pairs(p: TimeParts) -> Seq<int> {
    seq![
        p.year as int / 100,
        p.year as int % 100,
        p.month as int,
        p.day as int,
        p.hour as int,
        p.minute as int,
        p.second as int,
    ]
}

/// Where a pair of digits stands in a printed timestamp.
spec fn place_of(k: int) -> int {
    if k < 2 {
        2 * k
    } else {
        3 * k - 1
    }
}

/// The text spells the pairs of digits, with marks between them.
spec fn spells(a: Seq<char>, u: Seq<int>) -> bool {
    &&& a.len() == 20
    &&& u.len() == 7
    &&& a[4] == '-' && a[7] == '-' && a[10] == 'T' && a[13] == ':' && a[16] == ':' && a[19] == 'Z'
    &&& forall|k: int|
        0 <= k < 7 ==> 0 <= #[trigger] u[k] < 100 && a[place_of(k)] == digit_char(u[k] / 10)
            && a[place_of(k) + 1] == digit_char(u[k] % 10)
}

/// What a timestamp of a year with four digits prints as, digit by digit.
proof fn iso_digits(p: TimeParts, ts: int)
    requires
        are_parts_of(p, ts),
        0 <= p.year <= 9_999,
    ensures
        spells(iso_text(p), pairs(p)),
{
    let secs = ts % 86_400;
    assert(0 <= secs / 3_600 < 24);
    padded_four(p.year as int);
    padded_two(p.month as int);
    padded_two(p.day as int);
    padded_two(p.hour as int);
    padded_two(p.minute as int);
    padded_two(p.second as int);
    reveal_strlit("-");
    reveal_strlit("T");
    reveal_strlit(":");
    reveal_strlit("Z");
}

/// Texts that first differ at `k` are ordered as they are there.
proof fn first_difference(a: Seq<char>, b: Seq<char>, k: int)
    requires
        0 <= k < a.len(),
        k < b.len(),
        forall|i: int| 0 <= i < k ==> a[i] == b[i],
        (a[k] as int) < (b[k] as int),
    ensures
        lex_less(a, b),
    decreases k,
{
    if k > 0 {
        let c = a.skip(1);
        let d = b.skip(1);
        assert forall|i: int| 0 <= i < k - 1 implies c[i] == d[i] by {
            assert(a[i + 1] == b[i + 1]);
        }
        first_difference(c, d, k - 1);
    }
}

/// Texts that spell pairs of digits are ordered as the first pair in which they differ.
#[verifier::spinoff_prover]
proof fn spelled_order(a: Seq<char>, b: Seq<char>, u: Seq<int>, v: Seq<int>, k: int)
    requires
        spells(a, u),
        spells(b, v),
        0 <= k < 7,
        u[k] < v[k],
        forall|i: int| 0 <= i < k ==> u[i] == v[i],
    ensures
        lex_less(a, b),
{
    let at = place_of(k);
    assert forall|i: int| 0 <= i < at implies a[i] == b[i] by {
        let m = if i < 4 {
            i / 2
        } else {
            (i + 1) / 3
        };
        if i != 4 && i != 7 && i != 10 && i != 13 && i != 16 {
            assert(u[m] == v[m]);
            assert(i == place_of(m) || i == place_of(m) + 1);
        }
    }
    if u[k] / 10 < v[k] / 10 {
        first_difference(a, b, at);
    } else {
        assert(u[k] / 10 == v[k] / 10 && u[k] % 10 < v[k] % 10);
        first_difference(a, b, at + 1);
    }
}

/// A later timestamp has later fields: in the first pair of digits in which the two
/// differ, it has the larger.
proof fn later_is_larger(p: TimeParts, q: TimeParts, s: int, t: int) -> (k: int)
    requires
        are_parts_of(p, s),
        are_parts_of(q, t),
        0 <= p.year <= 9_999,
        0 <= q.year <= 9_999,
        s < t,
    ensures
        0 <= k < 7,
        pairs(p)[k] < pairs(q)[k],
        forall|i: int| 0 <= i < k ==> pairs(p)[i] == pairs(q)[i],
{
    let (y, m, d) = (p.year as int, p.month as int, p.day as int);
    let (y2, m2, d2) = (q.year as int, q.month as int, q.day as int);
    days_of_the_year(y, m, d);
    days_of_the_year(y2, m2, d2);
    if s / 86_400 < t / 86_400 {
        if y2 < y {
            years_ascend(y2 + 1, y);
            year_lengths(y2);
        }
        assert(y <= y2);
        if y < y2 {
            if y / 100 < y2 / 100 {
                0
            } else {
                1
            }
        } else {
            month_starts(y);
            if m < m2 {
                2
            } else {
                assert(m == m2);
                3
            }
        }
    } else {
        assert(s / 86_400 == t / 86_400);
        dates_are_unique(y, m, d, y2, m2, d2);
        let a = s % 86_400;
        let b = t % 86_400;
        assert(a < b);
        if a / 3_600 < b / 3_600 {
            4
        } else if (a / 60) % 60 < (b / 60) % 60 {
            assert(a / 3_600 == b / 3_600);
            5
        } else {
            assert(a / 3_600 == b / 3_600);
            assert(a == 3_600 * (a / 3_600) + 60 * ((a / 60) % 60) + a % 60);
            assert(b == 3_600 * (b / 3_600) + 60 * ((b / 60) % 60) + b % 60);
            6
        }
    }
}

/// Printed timestamps have one width and sort as text: of two in years of four digits,
/// the earlier comes first.
pub proof fn utc_sorts_as_text(p: TimeParts, q: TimeParts, s: int, t: int)
    requires
        are_parts_of(p, s),
        are_parts_of(q, t),
        0 <= p.year <= 9_999,
        0 <= q.year <= 9_999,
        s < t,
    ensures
        iso_text(p).len() == 20,
        iso_text(q).len() == 20,
        lex_less(iso_text(p), iso_text(q)),
{
    iso_digits(p, s);
    iso_digits(q, t);
    let k = later_is_larger(p, q, s, t);
    spelled_order(iso_text(p), iso_text(q), pairs(p), pairs(q), k);
}

/// The next day is the next day of the week.
#[verifier::spinoff_prover]
pub proof fn weekdays_advance(p: TimeParts, q: TimeParts, ts: int)
    requires
        are_parts_of(p, ts),
        are_parts_of(q, ts + 86_400),
    ensures
        q.weekday == (p.weekday + 1) % 7,
{
    let days = ts / 86_400;
    assert((ts + 86_400) / 86_400 == days + 1);
    assert((days + 5) % 7 == ((days + 4) % 7 + 1) % 7);
}

// ── Readings of the clock ────────────────────────────────────────────────────

/// Whole seconds since the epoch, by how much time has passed since; a clock set before
/// the epoch reads 0.
pub fn now(elapsed: Option<(u64, u32)>) -> (r: i64)
    ensures
        r == (match elapsed {
            Some((s, _)) => s as i64,
            None => 0i64,
        }),
{
    match elapsed {
        Some((s, _)) => s as i64,
        None => 0,
    }
}

/// Milliseconds since the epoch, by how many seconds and nanoseconds have passed since;
/// a clock set before the epoch reads 0.
pub fn now_ms(elapsed: Option<(u64, u32)>) -> (r: i64)
    ensures
        r == (match elapsed {
            Some((s, n)) => (1000 * s + n as int / 1_000_000) as i64,
            None => 0i64,
        }),
{
    match elapsed {
        Some((s, n)) => (1000 * (s as u128) + (n as u128) / 1_000_000) as i64,
        None => 0,
    }
}

/// The format `time.local` asks for.
pub const LOCAL_FORMAT: &'static str = "+%a %b %e %H:%M:%S %Z %Y";

/// `time.local(tz)`: the line that was written for the local time, without its end.
pub fn local(written: &[u8]) -> (s: String)
    ensures
        s@ == without_line_ends(lossy_text(written@)),
{
    let text = lossy(written);
    trim_line_ends(text.as_str())
}

/// A leap year comes every fourth year, save for three centuries in four.
pub proof fn leap_years_are_every_fourth(y: int)
    ensures
        y % 400 == 0 ==> is_leap(y),
        y % 100 == 0 && y % 400 != 0 ==> !is_leap(y),
        y % 4 == 0 && y % 100 != 0 ==> is_leap(y),
        y % 4 != 0 ==> !is_leap(y),
        year_start(y + 400) == year_start(y) + 146_097,
{
    assert((y + 399) / 4 == (y - 1) / 4 + 100);
    assert((y + 399) / 100 == (y - 1) / 100 + 4);
    assert((y + 399) / 400 == (y - 1) / 400 + 1);
}

/// The months have the lengths they have.
pub proof fn month_lengths(y: int)
    ensures
        month_len(y, 1) == 31,
        month_len(y, 2) == if is_leap(y) {
            29int
        } else {
            28int
        },
        month_len(y, 3) == 31,
        month_len(y, 4) == 30,
        month_len(y, 5) == 31,
        month_len(y, 6) == 30,
        month_len(y, 7) == 31,
        month_len(y, 8) == 31,
        month_len(y, 9) == 30,
        month_len(y, 10) == 31,
        month_len(y, 11) == 30,
        month_len(y, 12) == 31,
{
}

/// Days are numbered from the first of January 1970 on, one by one: within a month, from
/// month to month and from year to year.
pub proof fn days_are_numbered_in_a_row(y: int, m: int, d: int)
    requires
        1 <= m <= 12,
    ensures
        day_number(1970, 1, 1) == 0,
        day_number(y, m, d + 1) == day_number(y, m, d) + 1,
        m < 12 ==> day_number(y, m + 1, 1) == day_number(y, m, month_len(y, m)) + 1,
        day_number(y + 1, 1, 1) == day_number(y, 12, 31) + 1,
{
    month_starts(y);
    month_starts(y + 1);
    month_starts(1970);
    year_lengths(y);
    reveal_with_fuel(month_start, 2);
}

/// The fields of a time lie in their ranges and count its seconds; the first day of all was
/// a Thursday, and the first day of a year is its day one.
pub proof fn fields_count_the_seconds(p: TimeParts, ts: int)
    requires
        are_parts_of(p, ts),
    ensures
        0 <= p.hour < 24,
        0 <= p.minute < 60,
        0 <= p.second < 60,
        0 <= p.weekday < 7,
        day_number(p.year as int, p.month as int, p.day as int) * 86_400 + p.hour * 3_600 + p.minute
            * 60 + p.second == ts,
        0 <= ts < 86_400 ==> p.weekday == 4,
        p.yearday == day_number(p.year as int, p.month as int, p.day as int) - day_number(
            p.year as int,
            1,
            1,
        ) + 1,
{
    let secs = ts % 86_400;
    assert(secs == secs / 3_600 * 3_600 + (secs / 60) % 60 * 60 + secs % 60);
    month_starts(p.year as int);
}

/// Stamping counts days, hours, minutes and seconds, whatever their number, and months
/// beyond a year into the years.
pub proof fn stamps_carry(y: int, mo: int, d: int, h: int, mi: int, s: int)
    requires
        -1_000_000 <= y <= 1_000_000,
        -1_000_000 <= mo <= 1_000_000,
        -1_000_000 <= d <= 1_000_000,
        -1_000_000 <= h <= 1_000_000,
        -1_000_000 <= mi <= 1_000_000,
        -1_000_000 <= s <= 1_000_000,
    ensures
        1 <= mo <= 12 ==> stamp_of(y, mo, d, h, mi, s) == day_number(y, mo, d) * 86_400 + h * 3_600
            + mi * 60 + s,
        stamp_of(y, mo + 12, d, h, mi, s) == stamp_of(y + 1, mo, d, h, mi, s),
        stamp_of(y, mo, d + 1, h, mi, s) == stamp_of(y, mo, d, h, mi, s) + 86_400,
        stamp_of(y, mo, d, h + 1, mi, s) == stamp_of(y, mo, d, h, mi, s) + 3_600,
        stamp_of(y, mo, d, h, mi + 1, s) == stamp_of(y, mo, d, h, mi, s) + 60,
        stamp_of(y, mo, d, h, mi, s + 1) == stamp_of(y, mo, d, h, mi, s) + 1,
{
    let year = y + (mo - 1) / 12;
    let month = (mo - 1) % 12 + 1;
    month_starts(year);
    assert(1 <= month <= 12);
    assert(0 <= month_start(year, month) <= 366);
    assert((mo + 12 - 1) / 12 == (mo - 1) / 12 + 1);
    assert((mo + 12 - 1) % 12 == (mo - 1) % 12);
    assert(-2_000_000_000 <= year_start(year) <= 2_000_000_000);
}

/// In years of four digits the printed form has the year, the month and the day, and behind
/// a `T` the hour, the minute and the second, each with all its digits.
#[verifier::spinoff_prover]
pub proof fn utc_spells_the_fields(p: TimeParts, ts: int)
    requires
        are_parts_of(p, ts),
        0 <= p.year <= 9_999,
    ensures
        ({
            let t = iso_text(p);
            &&& t.len() == 20
            &&& t[0] == digit_char(p.year as int / 1000)
            &&& t[1] == digit_char(p.year as int / 100 % 10)
            &&& t[2] == digit_char(p.year as int / 10 % 10)
            &&& t[3] == digit_char(p.year as int % 10)
            &&& t[4] == '-'
            &&& t[5] == digit_char(p.month as int / 10)
            &&& t[6] == digit_char(p.month as int % 10)
            &&& t[7] == '-'
            &&& t[8] == digit_char(p.day as int / 10)
            &&& t[9] == digit_char(p.day as int % 10)
            &&& t[10] == 'T'
            &&& t[11] == digit_char(p.hour as int / 10)
            &&& t[12] == digit_char(p.hour as int % 10)
            &&& t[13] == ':'
            &&& t[14] == digit_char(p.minute as int / 10)
            &&& t[15] == digit_char(p.minute as int % 10)
            &&& t[16] == ':'
            &&& t[17] == digit_char(p.second as int / 10)
            &&& t[18] == digit_char(p.second as int % 10)
            &&& t[19] == 'Z'
        }),
{
    iso_digits(p, ts);
    pairs_stand_in_place(iso_text(p), pairs(p));
    year_digits(p.year as int);
}

/// The digits of a year of four.
proof fn year_digits(y: int)
    requires
        0 <= y <= 9_999,
    ensures
        y / 100 / 10 == y / 1000,
        y / 100 % 10 == y / 100 % 10,
        y % 100 / 10 == y / 10 % 10,
        y % 100 % 10 == y % 10,
{
}

/// Pairs of digits stand where the printed form has them.
proof fn pairs_stand_in_place(t: Seq<char>, u: Seq<int>)
    requires
        spells(t, u),
    ensures
        t[0] == digit_char(u[0] / 10) && t[1] == digit_char(u[0] % 10),
        t[2] == digit_char(u[1] / 10) && t[3] == digit_char(u[1] % 10),
        t[5] == digit_char(u[2] / 10) && t[6] == digit_char(u[2] % 10),
        t[8] == digit_char(u[3] / 10) && t[9] == digit_char(u[3] % 10),
        t[11] == digit_char(u[4] / 10) && t[12] == digit_char(u[4] % 10),
        t[14] == digit_char(u[5] / 10) && t[15] == digit_char(u[5] % 10),
        t[17] == digit_char(u[6] / 10) && t[18] == digit_char(u[6] % 10),
{
    assert(0 <= u[0] < 100 && place_of(0) == 0);
    assert(0 <= u[1] < 100 && place_of(1) == 2);
    assert(0 <= u[2] < 100 && place_of(2) == 5);
    assert(0 <= u[3] < 100 && place_of(3) == 8);
    assert(0 <= u[4] < 100 && place_of(4) == 11);
    assert(0 <= u[5] < 100 && place_of(5) == 14);
    assert(0 <= u[6] < 100 && place_of(6) == 17);
}

/// Padding puts zeros in front of the digits, and behind the sign, until the width is
/// reached.
pub proof fn zeros_fill_the_width(i: int, width: int)
    requires
        i >= 0,
    ensures
        ({
            let d = decimal_nat(i as nat);
            let t = zero_padded(i, width);
            &&& t.len() == if d.len() < width {
                width
            } else {
                d.len() as int
            }
            &&& t.skip(t.len() - d.len()) == d
            &&& forall|k: int| 0 <= k < t.len() - d.len() ==> #[trigger] t[k] == '0'
        }),
        i > 0 ==> zero_padded(-i, width) == seq!['-'] + zero_padded(i, width - 1),
{
    let d = decimal_nat(i as nat);
    zeros_are_zeros(width - d.len());
    let t = zero_padded(i, width);
    assert(t.skip(t.len() - d.len()) =~= d);
    if i > 0 {
        assert(zero_padded(-i, width) =~= seq!['-'] + zero_padded(i, width - 1));
    }
}

/// Zeros are zeros.
proof fn zeros_are_zeros(n: int)
    ensures
        zeros(n).len() == if n < 0 {
            0
        } else {
            n
        },
        forall|k: int| 0 <= k < n ==> #[trigger] zeros(n)[k] == '0',
    decreases n,
{
    if n > 0 {
        zeros_are_zeros(n - 1);
    }
}

/// The fields go by their names.
pub proof fn fields_go_by_name(p: TimeParts)
    ensures
        named_fields(p).len() == 8,
        named_fields(p).contains(("year"@, p.year)),
        named_fields(p).contains(("month"@, p.month)),
        named_fields(p).contains(("day"@, p.day)),
        named_fields(p).contains(("hour"@, p.hour)),
        named_fields(p).contains(("minute"@, p.minute)),
        named_fields(p).contains(("second"@, p.second)),
        named_fields(p).contains(("weekday"@, p.weekday)),
        named_fields(p).contains(("yearday"@, p.yearday)),
{
    let f = named_fields(p);
    assert(f[0] == ("year"@, p.year));
    assert(f[1] == ("month"@, p.month));
    assert(f[2] == ("day"@, p.day));
    assert(f[3] == ("hour"@, p.hour));
    assert(f[4] == ("minute"@, p.minute));
    assert(f[5] == ("second"@, p.second));
    assert(f[6] == ("weekday"@, p.weekday));
    assert(f[7] == ("yearday"@, p.yearday));
}

} // verus!
