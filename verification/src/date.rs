//! Proleptic-Gregorian calendar arithmetic on plain integers.
//!
//! Dates cover the years 1 through 9999. A date is identified by its day
//! number, counted from 0 at 0001-01-01; a point in time by the number of
//! seconds from midnight of that day. Weekday 1 is Monday (day 0 is a
//! Monday), weekday 7 is Sunday.

use vstd::prelude::*;
use vstd::arithmetic::div_mod::{
    lemma_fundamental_div_mod, lemma_fundamental_div_mod_converse, lemma_mod_multiples_basic,
};

verus! {

pub open spec fn is_leap_year(y: int) -> bool {
    y % 4 == 0 && (y % 100 != 0 || y % 400 == 0)
}

pub open spec fn year_length(y: int) -> int {
    if is_leap_year(y) {
        366
    } else {
        365
    }
}

pub open spec fn month_length(y: int, m: int) -> int {
    if m == 2 {
        if is_leap_year(y) {
            29
        } else {
            28
        }
    } else if m == 4 || m == 6 || m == 9 || m == 11 {
        30
    } else {
        31
    }
}

/// Days of year `y` that precede month `m` (meaningful for `1 <= m <= 13`).
pub open spec fn days_before_month(y: int, m: int) -> int
    decreases m,
{
    if m <= 1 {
        0
    } else {
        days_before_month(y, m - 1) + month_length(y, m - 1)
    }
}

/// Days before January 1st of year `y`, counted from 0001-01-01.
pub open spec fn days_before_year(y: int) -> int {
    365 * (y - 1) + (y - 1) / 4 - (y - 1) / 100 + (y - 1) / 400
}

pub open spec fn valid_date(y: int, m: int, d: int) -> bool {
    1 <= y <= 9999 && 1 <= m <= 12 && 1 <= d <= month_length(y, m)
}

/// Day number of a date, counted from 0 at 0001-01-01.
pub open spec fn rata_die(y: int, m: int, d: int) -> int {
    days_before_year(y) + days_before_month(y, m) + d - 1
}

/// Weekday of a day number: 1 = Monday, ..., 7 = Sunday.
pub open spec fn weekday_of_day(n: int) -> int {
    n % 7 + 1
}

/// Total days in the years 1 through 9999; day numbers are below this bound.
pub const DAY_COUNT: u64 = 3652059;

/// Seconds in the years 1 through 9999: `DAY_COUNT * 86400`.
pub const SEC_COUNT: u64 = 315537897600;

/// Seconds from 0001-01-01 00:00:00 to 1970-01-01 00:00:00: instants counted
/// from the Unix epoch differ from this library's by exactly this much.
pub const UNIX_EPOCH_SECS: i64 = 62135596800;

/// `UNIX_EPOCH_SECS` is where 1970 starts.
pub proof fn lemma_unix_epoch()
    ensures
        UNIX_EPOCH_SECS == 86400 * rata_die(1970, 1, 1),
{
    assert(1969int / 4 == 492 && 1969int / 100 == 19 && 1969int / 400 == 4) by {
        lemma_fundamental_div_mod_converse(1969, 4, 492, 1);
        lemma_fundamental_div_mod_converse(1969, 100, 19, 69);
        lemma_fundamental_div_mod_converse(1969, 400, 4, 369);
    }
}

/// How a quotient changes when the dividend grows by one.
proof fn lemma_div_step(k: int, d: int)
    requires
        k >= 1,
        d >= 1,
    ensures
        k / d == (k - 1) / d + if k % d == 0 {
            1int
        } else {
            0int
        },
{
    let q = (k - 1) / d;
    let r = (k - 1) % d;
    lemma_fundamental_div_mod(k - 1, d);
    if r + 1 < d {
        lemma_fundamental_div_mod_converse(k, d, q, r + 1);
    } else {
        assert(k == (q + 1) * d + 0) by (nonlinear_arith)
            requires
                k - 1 == d * q + r,
                r + 1 == d,
        ;
        lemma_fundamental_div_mod_converse(k, d, q + 1, 0);
    }
}

/// A multiple of 400 is a multiple of 100, and a multiple of 100 one of 4.
proof fn lemma_leap_divisibility(y: int)
    ensures
        y % 400 == 0 ==> y % 100 == 0,
        y % 100 == 0 ==> y % 4 == 0,
{
    if y % 400 == 0 {
        lemma_fundamental_div_mod(y, 400);
        assert(y == (4 * (y / 400)) * 100);
        lemma_mod_multiples_basic(4 * (y / 400), 100);
    }
    if y % 100 == 0 {
        lemma_fundamental_div_mod(y, 100);
        assert(y == (25 * (y / 100)) * 4);
        lemma_mod_multiples_basic(25 * (y / 100), 4);
    }
}

pub proof fn lemma_days_before_year_succ(y: int)
    requires
        y >= 1,
    ensures
        days_before_year(y + 1) == days_before_year(y) + year_length(y),
{
    lemma_div_step(y, 4);
    lemma_div_step(y, 100);
    lemma_div_step(y, 400);
    lemma_leap_divisibility(y);
}

pub proof fn lemma_days_before_year_monotonic(a: int, b: int)
    requires
        1 <= a <= b,
    ensures
        days_before_year(a) <= days_before_year(b),
        a < b ==> days_before_year(a) + year_length(a) <= days_before_year(b),
    decreases b - a,
{
    if a < b {
        lemma_days_before_year_succ(a);
        lemma_days_before_year_monotonic(a + 1, b);
    }
}

pub proof fn lemma_days_total()
    ensures
        days_before_year(10000) == DAY_COUNT,
{
    assert(9999int / 4 == 2499 && 9999int / 100 == 99 && 9999int / 400 == 24) by {
        lemma_fundamental_div_mod_converse(9999, 4, 2499, 3);
        lemma_fundamental_div_mod_converse(9999, 100, 99, 99);
        lemma_fundamental_div_mod_converse(9999, 400, 24, 399);
    }
}

/// The months of year `y` cover it exactly.
pub proof fn lemma_days_in_year(y: int)
    ensures
        days_before_month(y, 13) == year_length(y),
{
    reveal_with_fuel(days_before_month, 13);
}

pub proof fn lemma_days_before_month_monotonic(y: int, a: int, b: int)
    requires
        1 <= a <= b <= 13,
    ensures
        days_before_month(y, a) <= days_before_month(y, b),
        a < b ==> days_before_month(y, a) + month_length(y, a) <= days_before_month(y, b),
    decreases b - a,
{
    if a < b {
        lemma_days_before_month_monotonic(y, a + 1, b);
    }
}

/// A valid date lies within its year's days.
pub proof fn lemma_rata_die_in_year(y: int, m: int, d: int)
    requires
        valid_date(y, m, d),
    ensures
        days_before_year(y) <= rata_die(y, m, d),
        rata_die(y, m, d) < days_before_year(y) + year_length(y),
{
    lemma_days_before_month_monotonic(y, 1, m);
    lemma_days_before_month_monotonic(y, m, 13);
    lemma_days_in_year(y);
}

/// Day numbers of valid dates stay below `DAY_COUNT`.
pub proof fn lemma_rata_die_bounds(y: int, m: int, d: int)
    requires
        valid_date(y, m, d),
    ensures
        0 <= rata_die(y, m, d) < DAY_COUNT,
{
    lemma_rata_die_in_year(y, m, d);
    lemma_days_before_year_monotonic(1, y);
    lemma_days_before_year_succ(y);
    lemma_days_before_year_monotonic(y + 1, 10000);
    lemma_days_total();
}

/// Two valid dates with the same day number are the same date.
pub proof fn lemma_rata_die_injective(y1: int, m1: int, d1: int, y2: int, m2: int, d2: int)
    requires
        valid_date(y1, m1, d1),
        valid_date(y2, m2, d2),
        rata_die(y1, m1, d1) == rata_die(y2, m2, d2),
    ensures
        y1 == y2 && m1 == m2 && d1 == d2,
{
    lemma_rata_die_in_year(y1, m1, d1);
    lemma_rata_die_in_year(y2, m2, d2);
    if y1 < y2 {
        lemma_days_before_year_monotonic(y1, y2);
        lemma_days_before_year_succ(y1);
    }
    if y2 < y1 {
        lemma_days_before_year_monotonic(y2, y1);
        lemma_days_before_year_succ(y2);
    }
    if m1 < m2 {
        lemma_days_before_month_monotonic(y1, m1, m2);
    }
    if m2 < m1 {
        lemma_days_before_month_monotonic(y1, m2, m1);
    }
}

/// The date with day number `n`, as a specification-level value; meaningful
/// for `0 <= n < DAY_COUNT`, where such a date exists and is unique.
pub open spec fn date_of_day(n: int) -> (u64, u64, u64) {
    choose|t: (u64, u64, u64)|
        valid_date(t.0 as int, t.1 as int, t.2 as int) && rata_die(
            t.0 as int,
            t.1 as int,
            t.2 as int,
        ) == n
}

/// Every day number below `DAY_COUNT` is the day number of a valid date.
pub proof fn lemma_date_exists(n: int)
    requires
        0 <= n < DAY_COUNT,
    ensures
        exists|t: (u64, u64, u64)|
            valid_date(t.0 as int, t.1 as int, t.2 as int) && rata_die(
                t.0 as int,
                t.1 as int,
                t.2 as int,
            ) == n,
    decreases n,
{
    if n == 0 {
        let w = (1u64, 1u64, 1u64);
        assert(valid_date(w.0 as int, w.1 as int, w.2 as int) && rata_die(
            w.0 as int,
            w.1 as int,
            w.2 as int,
        ) == 0);
    } else {
        lemma_date_exists(n - 1);
        let t = choose|t: (u64, u64, u64)|
            valid_date(t.0 as int, t.1 as int, t.2 as int) && rata_die(
                t.0 as int,
                t.1 as int,
                t.2 as int,
            ) == n - 1;
        let y = t.0 as int;
        let m = t.1 as int;
        let d = t.2 as int;
        if d < month_length(y, m) {
            let w = (t.0, t.1, (t.2 + 1) as u64);
            assert(valid_date(w.0 as int, w.1 as int, w.2 as int) && rata_die(
                w.0 as int,
                w.1 as int,
                w.2 as int,
            ) == n);
        } else if m < 12 {
            let w = (t.0, (t.1 + 1) as u64, 1u64);
            assert(days_before_month(y, m + 1) == days_before_month(y, m) + month_length(y, m));
            assert(valid_date(w.0 as int, w.1 as int, w.2 as int) && rata_die(
                w.0 as int,
                w.1 as int,
                w.2 as int,
            ) == n);
        } else {
            // December 31st: the next day opens a new year, which stays in
            // range because day numbers below DAY_COUNT end at 9999-12-31.
            lemma_days_in_year(y);
            lemma_days_before_year_succ(y);
            assert(days_before_month(y, 13) == days_before_month(y, 12) + month_length(y, 12));
            if y == 9999 {
                lemma_days_total();
                assert(rata_die(9999, 12, 31) == DAY_COUNT - 1);
                assert(false);
            }
            let w = ((t.0 + 1) as u64, 1u64, 1u64);
            assert(valid_date(w.0 as int, w.1 as int, w.2 as int) && rata_die(
                w.0 as int,
                w.1 as int,
                w.2 as int,
            ) == n);
        }
    }
}

/// `date_of_day` agrees with any witness: the date of a day number is unique.
pub proof fn lemma_date_of_day_agrees(n: int, y: u64, m: u64, d: u64)
    requires
        valid_date(y as int, m as int, d as int),
        rata_die(y as int, m as int, d as int) == n,
    ensures
        date_of_day(n) == (y, m, d),
{
    assert(exists|t: (u64, u64, u64)|
        valid_date(t.0 as int, t.1 as int, t.2 as int) && rata_die(
            t.0 as int,
            t.1 as int,
            t.2 as int,
        ) == n) by {
        let w = (y, m, d);
        assert(valid_date(w.0 as int, w.1 as int, w.2 as int) && rata_die(
            w.0 as int,
            w.1 as int,
            w.2 as int,
        ) == n);
    }
    let t = date_of_day(n);
    lemma_rata_die_injective(t.0 as int, t.1 as int, t.2 as int, y as int, m as int, d as int);
}

pub fn leap_year(y: u64) -> (r: bool)
    ensures
        r == is_leap_year(y as int),
{
    y % 4 == 0 && (y % 100 != 0 || y % 400 == 0)
}

pub fn days_in_month(y: u64, m: u64) -> (r: u64)
    requires
        1 <= m <= 12,
    ensures
        r == month_length(y as int, m as int),
        28 <= r <= 31,
{
    if m == 2 {
        if leap_year(y) {
            29
        } else {
            28
        }
    } else if m == 4 || m == 6 || m == 9 || m == 11 {
        30
    } else {
        31
    }
}

fn days_before_year_x(y: u64) -> (r: u64)
    requires
        1 <= y <= 10000,
    ensures
        r == days_before_year(y as int),
{
    365 * (y - 1) + (y - 1) / 4 - (y - 1) / 100 + (y - 1) / 400
}

/// Day number of a valid date.
pub fn day_number_of_date(y: u64, m: u64, d: u64) -> (n: u64)
    requires
        valid_date(y as int, m as int, d as int),
    ensures
        n == rata_die(y as int, m as int, d as int),
        n < DAY_COUNT,
{
    proof {
        lemma_rata_die_bounds(y as int, m as int, d as int);
    }
    let before_year = days_before_year_x(y);
    let mut before_month: u64 = 0;
    let mut mm: u64 = 1;
    while mm < m
        invariant
            1 <= mm <= m,
            m <= 12,
            before_month == days_before_month(y as int, mm as int),
            before_month <= 31 * (mm - 1),
        decreases m - mm,
    {
        before_month = before_month + days_in_month(y, mm);
        mm = mm + 1;
    }
    proof {
        lemma_days_before_year_monotonic(1, y as int);
    }
    before_year + before_month + d - 1
}

/// The date with the given day number.
pub fn date_of_day_number(n: u64) -> (r: (u64, u64, u64))
    requires
        n < DAY_COUNT,
    ensures
        valid_date(r.0 as int, r.1 as int, r.2 as int),
        rata_die(r.0 as int, r.1 as int, r.2 as int) == n,
{
    proof {
        lemma_days_total();
    }
    let mut y: u64 = 1;
    loop
        invariant
            1 <= y <= 9999,
            days_before_year(y as int) <= n,
            n < DAY_COUNT,
            days_before_year(10000) == DAY_COUNT,
        ensures
            1 <= y <= 9999,
            days_before_year(y as int) <= n,
            n < days_before_year(y as int) + year_length(y as int),
        decreases 10000 - y,
    {
        proof {
            lemma_days_before_year_succ(y as int);
            lemma_days_before_year_monotonic(y as int + 1, 10000);
        }
        let nxt = days_before_year_x(y + 1);
        if n < nxt {
            break ;
        }
        y = y + 1;
    }
    proof {
        lemma_days_before_year_monotonic(1, y as int);
    }
    let mut rem: u64 = n - days_before_year_x(y);
    let ghost day_of_year: int = n - days_before_year(y as int);
    let mut m: u64 = 1;
    loop
        invariant
            1 <= m <= 12,
            days_before_month(y as int, m as int) + rem == day_of_year,
            day_of_year < year_length(y as int),
            rem <= day_of_year,
        ensures
            1 <= m <= 12,
            days_before_month(y as int, m as int) + rem == day_of_year,
            rem < month_length(y as int, m as int),
        decreases 12 - m,
    {
        let ml = days_in_month(y, m);
        if rem < ml {
            break ;
        }
        proof {
            lemma_days_in_year(y as int);
            if m == 12 {
                assert(days_before_month(y as int, 13) == days_before_month(y as int, 12)
                    + month_length(y as int, 12));
            }
            lemma_days_before_month_monotonic(y as int, 1, m as int);
        }
        rem = rem - ml;
        m = m + 1;
    }
    (y, m, rem + 1)
}

/// Weekday of a day number: 1 = Monday, ..., 7 = Sunday.
pub fn weekday_of(n: u64) -> (w: u64)
    ensures
        w == weekday_of_day(n as int),
        1 <= w <= 7,
{
    n % 7 + 1
}

/// A local calendar time: a valid date plus a time of day.
pub struct CivilTime {
    pub year: u64,
    pub month: u64,
    pub day: u64,
    pub hour: u64,
    pub minute: u64,
    pub second: u64,
}

impl CivilTime {
    pub open spec fn valid(self) -> bool {
        valid_date(self.year as int, self.month as int, self.day as int) && self.hour <= 23
            && self.minute <= 59 && self.second <= 59
    }
}

/// Seconds from 0001-01-01 00:00:00 to the given calendar time.
pub open spec fn secs_of_civil(y: int, m: int, d: int, h: int, mi: int, s: int) -> int {
    86400 * rata_die(y, m, d) + 3600 * h + 60 * mi + s
}

/// The calendar time at `t` seconds from 0001-01-01 00:00:00.
pub fn civil_of_secs(t: u64) -> (c: CivilTime)
    requires
        t < SEC_COUNT,
    ensures
        c.valid(),
        secs_of_civil(
            c.year as int,
            c.month as int,
            c.day as int,
            c.hour as int,
            c.minute as int,
            c.second as int,
        ) == t,
{
    let days = t / 86400;
    let sod = t % 86400;
    proof {
        lemma_fundamental_div_mod(t as int, 86400);
        assert(days < DAY_COUNT) by {
            if days >= DAY_COUNT {
                assert(t >= 86400 * (DAY_COUNT as int)) by (nonlinear_arith)
                    requires
                        t as int == 86400 * (days as int) + sod as int,
                        sod >= 0,
                        days >= DAY_COUNT,
                ;
            }
        }
    }
    let (y, m, d) = date_of_day_number(days);
    let h = sod / 3600;
    let r1 = sod % 3600;
    let mi = r1 / 60;
    let s = r1 % 60;
    proof {
        lemma_fundamental_div_mod(sod as int, 3600);
        lemma_fundamental_div_mod(r1 as int, 60);
    }
    CivilTime { year: y, month: m, day: d, hour: h, minute: mi, second: s }
}

/// Seconds from 0001-01-01 00:00:00 to the given calendar time.
pub fn secs_of_civil_time(c: &CivilTime) -> (t: u64)
    requires
        c.valid(),
    ensures
        t == secs_of_civil(
            c.year as int,
            c.month as int,
            c.day as int,
            c.hour as int,
            c.minute as int,
            c.second as int,
        ),
        t < SEC_COUNT,
{
    let n = day_number_of_date(c.year, c.month, c.day);
    86400 * n + 3600 * c.hour + 60 * c.minute + c.second
}

/// The calendar time at `t` seconds from 0001-01-01 00:00:00, as a
/// specification-level value; meaningful for `0 <= t < SEC_COUNT`.
pub open spec fn civil_of_local(t: int) -> CivilTime {
    choose|c: CivilTime|
        c.valid() && secs_of_civil(
            c.year as int,
            c.month as int,
            c.day as int,
            c.hour as int,
            c.minute as int,
            c.second as int,
        ) == t
}

/// `civil_of_local` agrees with any witness: the calendar time at a given
/// second is unique.
pub proof fn lemma_civil_of_local_agrees(t: int, c: CivilTime)
    requires
        c.valid(),
        secs_of_civil(
            c.year as int,
            c.month as int,
            c.day as int,
            c.hour as int,
            c.minute as int,
            c.second as int,
        ) == t,
    ensures
        civil_of_local(t) == c,
{
    assert(exists|w: CivilTime|
        w.valid() && secs_of_civil(
            w.year as int,
            w.month as int,
            w.day as int,
            w.hour as int,
            w.minute as int,
            w.second as int,
        ) == t) by {
        assert(c.valid() && secs_of_civil(
            c.year as int,
            c.month as int,
            c.day as int,
            c.hour as int,
            c.minute as int,
            c.second as int,
        ) == t);
    }
    lemma_civil_secs_round_trip(civil_of_local(t), c);
}

/// Every second below `SEC_COUNT` falls on a valid calendar time, so
/// `civil_of_local` is meaningful there.
pub proof fn lemma_civil_exists(t: int)
    requires
        0 <= t < SEC_COUNT,
    ensures
        civil_of_local(t).valid(),
        secs_of_civil(
            civil_of_local(t).year as int,
            civil_of_local(t).month as int,
            civil_of_local(t).day as int,
            civil_of_local(t).hour as int,
            civil_of_local(t).minute as int,
            civil_of_local(t).second as int,
        ) == t,
{
    let n = t / 86400;
    let sod = t % 86400;
    lemma_fundamental_div_mod(t, 86400);
    lemma_days_total();
    assert(n < DAY_COUNT) by {
        if n >= DAY_COUNT {
            assert(t >= 86400 * (DAY_COUNT as int)) by (nonlinear_arith)
                requires
                    t == 86400 * n + sod,
                    sod >= 0,
                    n >= DAY_COUNT,
            ;
        }
    }
    assert(n >= 0) by {
        if n < 0 {
            assert(t < 0) by (nonlinear_arith)
                requires
                    t == 86400 * n + sod,
                    sod < 86400,
                    n <= -1,
            ;
        }
    }
    lemma_date_exists(n);
    let w = choose|w: (u64, u64, u64)|
        valid_date(w.0 as int, w.1 as int, w.2 as int) && rata_die(
            w.0 as int,
            w.1 as int,
            w.2 as int,
        ) == n;
    let h = sod / 3600;
    let r1 = sod % 3600;
    let mi = r1 / 60;
    let sec = r1 % 60;
    lemma_fundamental_div_mod(sod, 3600);
    lemma_fundamental_div_mod(r1, 60);
    let c = CivilTime {
        year: w.0,
        month: w.1,
        day: w.2,
        hour: h as u64,
        minute: mi as u64,
        second: sec as u64,
    };
    assert(c.valid() && secs_of_civil(
        c.year as int,
        c.month as int,
        c.day as int,
        c.hour as int,
        c.minute as int,
        c.second as int,
    ) == t);
    lemma_civil_of_local_agrees(t, c);
}

/// The character for one decimal digit.
pub open spec fn digit_char(d: int) -> char {
    if d == 0 {
        '0'
    } else if d == 1 {
        '1'
    } else if d == 2 {
        '2'
    } else if d == 3 {
        '3'
    } else if d == 4 {
        '4'
    } else if d == 5 {
        '5'
    } else if d == 6 {
        '6'
    } else if d == 7 {
        '7'
    } else if d == 8 {
        '8'
    } else {
        '9'
    }
}

/// A number below 100 as two decimal digits.
pub open spec fn two_digits(n: int) -> Seq<char> {
    seq![digit_char(n / 10), digit_char(n % 10)]
}

/// A number below 10000 as four decimal digits.
pub open spec fn four_digits(n: int) -> Seq<char> {
    two_digits(n / 100) + two_digits(n % 100)
}

/// A calendar time as "YYYY-MM-DD HH:MM".
pub open spec fn civil_display(c: CivilTime) -> Seq<char> {
    four_digits(c.year as int) + seq!['-'] + two_digits(c.month as int) + seq!['-'] + two_digits(
        c.day as int,
    ) + seq![' '] + two_digits(c.hour as int) + seq![':'] + two_digits(c.minute as int)
}

/// Saving a calendar time as seconds and reading it back yields the same
/// calendar time: the two conversions invert each other on valid values.
pub proof fn lemma_civil_secs_round_trip(a: CivilTime, b: CivilTime)
    requires
        a.valid(),
        b.valid(),
        secs_of_civil(
            a.year as int,
            a.month as int,
            a.day as int,
            a.hour as int,
            a.minute as int,
            a.second as int,
        ) == secs_of_civil(
            b.year as int,
            b.month as int,
            b.day as int,
            b.hour as int,
            b.minute as int,
            b.second as int,
        ),
    ensures
        a.year == b.year && a.month == b.month && a.day == b.day && a.hour == b.hour && a.minute
            == b.minute && a.second == b.second,
{
    let ra = rata_die(a.year as int, a.month as int, a.day as int);
    let rb = rata_die(b.year as int, b.month as int, b.day as int);
    let sa = 3600 * a.hour as int + 60 * a.minute as int + a.second as int;
    let sb = 3600 * b.hour as int + 60 * b.minute as int + b.second as int;
    lemma_rata_die_bounds(a.year as int, a.month as int, a.day as int);
    lemma_rata_die_bounds(b.year as int, b.month as int, b.day as int);
    lemma_fundamental_div_mod_converse(86400 * ra + sa, 86400, ra, sa);
    lemma_fundamental_div_mod_converse(86400 * rb + sb, 86400, rb, sb);
    lemma_rata_die_injective(
        a.year as int,
        a.month as int,
        a.day as int,
        b.year as int,
        b.month as int,
        b.day as int,
    );
    lemma_fundamental_div_mod_converse(sa, 3600, a.hour as int, 60 * a.minute as int + a.second as int);
    lemma_fundamental_div_mod_converse(sb, 3600, b.hour as int, 60 * b.minute as int + b.second as int);
    lemma_fundamental_div_mod_converse(
        60 * a.minute as int + a.second as int,
        60,
        a.minute as int,
        a.second as int,
    );
    lemma_fundamental_div_mod_converse(
        60 * b.minute as int + b.second as int,
        60,
        b.minute as int,
        b.second as int,
    );
}

} // verus!
