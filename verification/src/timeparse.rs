//! The two time parsers.
//!
//! A relative token ("2h30m", "90s") names an offset from "now": first as a
//! human-readable duration expression, and failing that through a scanner
//! that reads `<number><unit>` pairs with units y, M, d, h, m, s (a year as
//! 365 days, a month as 30, with no calendar arithmetic) and silently skips
//! anything else.
//!
//! An absolute token ("y2025M3d14h9", "w5") names a calendar time: each
//! unit letter is followed by its value ("h23" names hour 23), strictly
//! range-checked; a weekday with no day asks for the next such weekday
//! strictly after "now"; fields not given default from the current local
//! date, with the time of day defaulting to midnight. The local result is
//! turned back into UTC by the configured whole-hour offset.

use vstd::prelude::*;
use crate::date::{
    CivilTime, DAY_COUNT, SEC_COUNT, valid_date, rata_die, weekday_of_day, secs_of_civil,
    date_of_day, civil_of_local, lemma_date_exists, lemma_date_of_day_agrees,
    lemma_civil_of_local_agrees, lemma_rata_die_bounds, civil_of_secs, secs_of_civil_time,
    day_number_of_date, date_of_day_number, weekday_of, days_in_month,
};

verus! {

/// Why a time token was rejected.
#[derive(Clone, Copy, Debug, PartialEq, Eq, Structural)]
pub enum TimeError {
    /// A year outside 1..=9999.
    YearRange,
    /// A month outside 1..=12.
    MonthRange,
    /// A day outside 1..=31.
    DayRange,
    /// A weekday outside 1..=7.
    WeekdayRange,
    /// An hour above 23.
    HourRange,
    /// A minute above 59.
    MinuteRange,
    /// A second above 59.
    SecondRange,
    /// The fields name no real calendar date, such as February 30th; the
    /// whole composed calendar time is carried along.
    InvalidDate(u64, u64, u64, u64, u64, u64),
    /// The result lies beyond what the library can represent.
    TooLarge,
}

pub open spec fn is_digit(c: char) -> bool {
    48 <= (c as u32) <= 57
}

pub open spec fn digit_val(c: char) -> int {
    (c as u32) - 48
}

/// Seconds that one unit letter stands for in a relative offset; a letter
/// that is no unit counts nothing.
pub open spec fn unit_seconds(c: char) -> int {
    if c == 'y' {
        31536000
    } else if c == 'M' {
        2592000
    } else if c == 'd' {
        86400
    } else if c == 'h' {
        3600
    } else if c == 'm' {
        60
    } else if c == 's' {
        1
    } else {
        0
    }
}

/// Offset in seconds named by the token from position `i` on, with `num` the
/// value of the digits read so far. Digits accumulate a number; a unit letter
/// counts it; trailing digits with no unit count nothing.
pub open spec fn rel_offset_scan(s: Seq<char>, i: int, num: int) -> int
    decreases s.len() - i,
{
    if i < 0 || i >= s.len() {
        0
    } else if is_digit(s[i]) {
        rel_offset_scan(s, i + 1, num * 10 + digit_val(s[i]))
    } else {
        num * unit_seconds(s[i]) + rel_offset_scan(s, i + 1, 0)
    }
}

/// Offset in seconds named by a whole relative token.
pub open spec fn rel_offset_of(s: Seq<char>) -> int {
    rel_offset_scan(s, 0, 0)
}

proof fn lemma_rel_offset_scan_nonneg(s: Seq<char>, i: int, num: int)
    requires
        num >= 0,
    ensures
        rel_offset_scan(s, i, num) >= 0,
    decreases s.len() - i,
{
    if 0 <= i < s.len() {
        if is_digit(s[i]) {
            lemma_rel_offset_scan_nonneg(s, i + 1, num * 10 + digit_val(s[i]));
        } else {
            assert(num * unit_seconds(s[i]) >= 0) by (nonlinear_arith)
                requires
                    num >= 0,
                    unit_seconds(s[i]) >= 0,
            ;
            lemma_rel_offset_scan_nonneg(s, i + 1, 0);
        }
    }
}

/// What `humantime::parse_duration` returns: whole seconds, or nothing when
/// the token is not a duration expression; a function of the token alone.
pub uninterp spec fn humantime_secs_of(s: Seq<char>) -> Option<u64>;

/// Relies on `humantime::parse_duration` for duration expressions such as
/// "2h 30m" or "1week"; the result depends on the token alone. Subsecond
/// parts are dropped. That parser panics on a token that names exactly
/// `u64::MAX` whole seconds together with a carry of exactly one second of
/// nanoseconds; the shortest spelling of `u64::MAX` seconds is the
/// twenty-digit number with the `s` suffix and the shortest exact carry is
/// "1000ms", so no token under 27 characters reaches that corner, and the
/// precondition keeps longer ones out.
#[verifier::external_body]
fn humantime_secs(s: &str) -> (r: Option<u64>)
    requires
        s@.len() < 27,
    ensures
        r == humantime_secs_of(s@),
{
    match humantime::parse_duration(s) {
        Ok(d) => Some(d.as_secs()),
        Err(_) => None,
    }
}

/// The duration-expression reading of a relative token: tokens of 27
/// characters or more are never offered to the duration parser — they could
/// spell its overflow corner — and read as no duration expression.
pub open spec fn duration_expr_secs(s: Seq<char>) -> Option<u64> {
    if s.len() < 27 {
        humantime_secs_of(s)
    } else {
        None
    }
}

/// Saturation bound for the relative scanner: one above `i64::MAX`, so a
/// saturated total is already known to overflow an `i64`.
const REL_CAP: u128 = 9223372036854775808;

/// Parse a relative time token and add it to "now".
///
/// A short token is first read as a duration expression; failing that — and
/// always for tokens of 27 characters or more, which stay away from the
/// duration parser's overflow corner — the fallback scanner accumulates
/// `<number><unit>` offsets. A result beyond `i64::MAX` seconds is an error.
pub fn parse_relative_time(input: &str, now_utc: i64) -> (r: Result<i64, TimeError>)
    requires
        now_utc >= 0,
    ensures
        (match duration_expr_secs(input@) {
            Some(n) => if now_utc + n <= i64::MAX {
                r == Result::<i64, TimeError>::Ok((now_utc + n) as i64)
            } else {
                r == Result::<i64, TimeError>::Err(TimeError::TooLarge)
            },
            None => if now_utc + rel_offset_of(input@) <= i64::MAX {
                r == Result::<i64, TimeError>::Ok((now_utc + rel_offset_of(input@)) as i64)
            } else {
                r == Result::<i64, TimeError>::Err(TimeError::TooLarge)
            },
        }),
{
    let bound = (i64::MAX - now_utc) as u64;
    if input.unicode_len() < 27 {
        if let Some(secs) = humantime_secs(input) {
            if secs <= bound {
                return Result::Ok(now_utc + secs as i64);
            } else {
                return Result::Err(TimeError::TooLarge);
            }
        }
    }
    let n = input.unicode_len();
    let mut i: usize = 0;
    let mut num: u128 = 0;
    let mut total: u128 = 0;
    let ghost mut num_true: int = 0;
    let ghost mut total_true: int = 0;
    proof {
        lemma_rel_offset_scan_nonneg(input@, 0, 0);
    }
    while i < n
        invariant
            i <= n,
            n == input@.len(),
            num_true >= 0,
            total_true >= 0,
            num as int == if num_true < REL_CAP {
                num_true
            } else {
                REL_CAP as int
            },
            total as int == if total_true < REL_CAP {
                total_true
            } else {
                REL_CAP as int
            },
            total_true + rel_offset_scan(input@, i as int, num_true) == rel_offset_of(input@),
        decreases n - i,
    {
        let c = input.get_char(i);
        let cv = c as u32;
        if 48 <= cv && cv <= 57 {
            let nv = num * 10 + (cv - 48) as u128;
            proof {
                if num_true >= REL_CAP {
                    assert(num_true * 10 + digit_val(c) >= REL_CAP) by (nonlinear_arith)
                        requires
                            num_true >= REL_CAP > 0,
                            digit_val(c) >= 0,
                    ;
                }
            }
            num = if nv >= REL_CAP {
                REL_CAP
            } else {
                nv
            };
            proof {
                num_true = num_true * 10 + digit_val(c);
            }
        } else {
            let u: u128 = if c == 'y' {
                31536000
            } else if c == 'M' {
                2592000
            } else if c == 'd' {
                86400
            } else if c == 'h' {
                3600
            } else if c == 'm' {
                60
            } else if c == 's' {
                1
            } else {
                0
            };
            let amount = num * u;
            proof {
                assert(num * u <= REL_CAP * 31536000) by (nonlinear_arith)
                    requires
                        0 <= num <= REL_CAP,
                        0 <= u <= 31536000,
                ;
                if num_true < REL_CAP {
                    assert(amount as int == num_true * unit_seconds(c));
                } else {
                    if u > 0 {
                        assert(num_true * unit_seconds(c) >= REL_CAP) by (nonlinear_arith)
                            requires
                                num_true >= REL_CAP > 0,
                                unit_seconds(c) >= 1,
                        ;
                        assert(amount >= REL_CAP) by (nonlinear_arith)
                            requires
                                amount == num * u,
                                num as int == REL_CAP as int,
                                u >= 1,
                        ;
                    } else {
                        assert(num_true * unit_seconds(c) == 0) by (nonlinear_arith)
                            requires
                                unit_seconds(c) == 0,
                        ;
                    }
                }
                lemma_rel_offset_scan_nonneg(input@, i as int + 1, 0);
            }
            let amount_s = if amount >= REL_CAP {
                REL_CAP
            } else {
                amount
            };
            let t2 = total + amount_s;
            total = if t2 >= REL_CAP {
                REL_CAP
            } else {
                t2
            };
            proof {
                total_true = total_true + num_true * unit_seconds(c);
                num_true = 0;
            }
            num = 0;
        }
        i = i + 1;
    }
    if total <= bound as u128 {
        Result::Ok(now_utc + total as i64)
    } else {
        Result::Err(TimeError::TooLarge)
    }
}

/// The fields collected from an absolute time token.
#[derive(Clone, Copy)]
pub struct AbsFields {
    pub year: Option<u64>,
    pub month: Option<u64>,
    pub day: Option<u64>,
    pub weekday: Option<u64>,
    pub hour: Option<u64>,
    pub minute: Option<u64>,
    pub second: Option<u64>,
}

pub open spec fn empty_fields() -> AbsFields {
    AbsFields {
        year: None,
        month: None,
        day: None,
        weekday: None,
        hour: None,
        minute: None,
        second: None,
    }
}

/// A letter that opens one field of an absolute token.
pub open spec fn is_abs_unit(c: char) -> bool {
    c == 'y' || c == 'M' || c == 'd' || c == 'w' || c == 'h' || c == 'm' || c == 's'
}

/// Close one field: the unit letter `u` takes the number that followed it,
/// range-checked.
pub open spec fn apply_field(u: char, num: int, f: AbsFields) -> Result<AbsFields, TimeError> {
    if u == 'y' {
        if 1 <= num <= 9999 {
            Ok(AbsFields { year: Some(num as u64), ..f })
        } else {
            Err(TimeError::YearRange)
        }
    } else if u == 'M' {
        if 1 <= num <= 12 {
            Ok(AbsFields { month: Some(num as u64), ..f })
        } else {
            Err(TimeError::MonthRange)
        }
    } else if u == 'd' {
        if 1 <= num <= 31 {
            Ok(AbsFields { day: Some(num as u64), ..f })
        } else {
            Err(TimeError::DayRange)
        }
    } else if u == 'w' {
        if 1 <= num <= 7 {
            Ok(AbsFields { weekday: Some(num as u64), ..f })
        } else {
            Err(TimeError::WeekdayRange)
        }
    } else if u == 'h' {
        if num <= 23 {
            Ok(AbsFields { hour: Some(num as u64), ..f })
        } else {
            Err(TimeError::HourRange)
        }
    } else if u == 'm' {
        if num <= 59 {
            Ok(AbsFields { minute: Some(num as u64), ..f })
        } else {
            Err(TimeError::MinuteRange)
        }
    } else if u == 's' {
        if num <= 59 {
            Ok(AbsFields { second: Some(num as u64), ..f })
        } else {
            Err(TimeError::SecondRange)
        }
    } else {
        Ok(f)
    }
}

/// Scan an absolute token from position `i` on: a unit letter opens a field
/// ("h23" names hour 23), the digits after it give its value, and the field
/// closes — range-checked, the first bad value stopping the scan — at the
/// next non-digit or at the end. Other letters, and digits that follow no
/// unit, are skipped. `pending` is the open unit, `num` the digits read for
/// it so far, capped at 10000, beyond every field's range, so larger values
/// all act alike.
pub open spec fn abs_scan(
    s: Seq<char>,
    i: int,
    pending: Option<char>,
    num: int,
    f: AbsFields,
) -> Result<AbsFields, TimeError>
    decreases s.len() - i,
{
    if i < 0 || i >= s.len() {
        match pending {
            None => Ok(f),
            Some(u) => apply_field(u, num, f),
        }
    } else if pending.is_some() && is_digit(s[i]) {
        let nv = num * 10 + digit_val(s[i]);
        abs_scan(
            s,
            i + 1,
            pending,
            if nv > 10000 {
                10000
            } else {
                nv
            },
            f,
        )
    } else {
        let applied = match pending {
            None => Ok(f),
            Some(u) => apply_field(u, num, f),
        };
        match applied {
            Err(e) => Err(e),
            Ok(f2) => if is_abs_unit(s[i]) {
                abs_scan(s, i + 1, Some(s[i]), 0, f2)
            } else {
                abs_scan(s, i + 1, None, 0, f2)
            },
        }
    }
}

/// The calendar time the collected fields name, relative to the local "now".
///
/// A weekday with no day asks for the next such weekday strictly after
/// "now" — a full week ahead when "now" already is that weekday — and sets
/// the whole date. Otherwise missing date fields default from "now", and
/// missing time-of-day fields default to 0.
pub open spec fn resolved_civil(f: AbsFields, now: CivilTime) -> Result<CivilTime, TimeError> {
    let hour = f.hour.unwrap_or(0u64);
    let minute = f.minute.unwrap_or(0u64);
    let second = f.second.unwrap_or(0u64);
    if f.weekday.is_some() && f.day.is_none() {
        let now_day = rata_die(now.year as int, now.month as int, now.day as int);
        let w = f.weekday.unwrap() as int;
        let cur = weekday_of_day(now_day);
        let ahead = if w <= cur {
            w + 7 - cur
        } else {
            w - cur
        };
        let target = now_day + ahead;
        if target < DAY_COUNT {
            let t = date_of_day(target);
            Ok(
                CivilTime {
                    year: t.0,
                    month: t.1,
                    day: t.2,
                    hour: hour,
                    minute: minute,
                    second: second,
                },
            )
        } else {
            Err(TimeError::TooLarge)
        }
    } else {
        Ok(
            CivilTime {
                year: f.year.unwrap_or(now.year),
                month: f.month.unwrap_or(now.month),
                day: f.day.unwrap_or(now.day),
                hour: hour,
                minute: minute,
                second: second,
            },
        )
    }
}

/// The instant an absolute token names, in seconds UTC, against the given
/// UTC "now" and whole-hour timezone offset; or the error that rejects it.
pub open spec fn abs_time_of(s: Seq<char>, now_utc: int, offset_hours: int) -> Result<
    i64,
    TimeError,
> {
    let local = now_utc + offset_hours * 3600;
    let now_c = civil_of_local(local);
    match abs_scan(s, 0, None, 0, empty_fields()) {
        Err(e) => Err(e),
        Ok(f) => match resolved_civil(f, now_c) {
            Err(e) => Err(e),
            Ok(c) => if valid_date(c.year as int, c.month as int, c.day as int) {
                Ok(
                    (secs_of_civil(
                        c.year as int,
                        c.month as int,
                        c.day as int,
                        c.hour as int,
                        c.minute as int,
                        c.second as int,
                    ) - offset_hours * 3600) as i64,
                )
            } else {
                Err(TimeError::InvalidDate(c.year, c.month, c.day, c.hour, c.minute, c.second))
            },
        },
    }
}

/// Fields a scan can leave behind stay within their ranges.
pub open spec fn fields_in_range(f: AbsFields) -> bool {
    (f.year.is_some() ==> 1 <= f.year.unwrap() <= 9999) && (f.month.is_some() ==> 1
        <= f.month.unwrap() <= 12) && (f.day.is_some() ==> 1 <= f.day.unwrap() <= 31)
        && (f.weekday.is_some() ==> 1 <= f.weekday.unwrap() <= 7) && (f.hour.is_some()
        ==> f.hour.unwrap() <= 23) && (f.minute.is_some() ==> f.minute.unwrap() <= 59) && (
    f.second.is_some() ==> f.second.unwrap() <= 59)
}

fn apply_field_x(u: char, num: u64, f: AbsFields) -> (r: Result<AbsFields, TimeError>)
    requires
        fields_in_range(f),
    ensures
        r == apply_field(u, num as int, f),
        r matches Ok(f2) ==> fields_in_range(f2),
{
    if u == 'y' {
        if 1 <= num && num <= 9999 {
            Ok(AbsFields { year: Some(num), ..f })
        } else {
            Err(TimeError::YearRange)
        }
    } else if u == 'M' {
        if 1 <= num && num <= 12 {
            Ok(AbsFields { month: Some(num), ..f })
        } else {
            Err(TimeError::MonthRange)
        }
    } else if u == 'd' {
        if 1 <= num && num <= 31 {
            Ok(AbsFields { day: Some(num), ..f })
        } else {
            Err(TimeError::DayRange)
        }
    } else if u == 'w' {
        if 1 <= num && num <= 7 {
            Ok(AbsFields { weekday: Some(num), ..f })
        } else {
            Err(TimeError::WeekdayRange)
        }
    } else if u == 'h' {
        if num <= 23 {
            Ok(AbsFields { hour: Some(num), ..f })
        } else {
            Err(TimeError::HourRange)
        }
    } else if u == 'm' {
        if num <= 59 {
            Ok(AbsFields { minute: Some(num), ..f })
        } else {
            Err(TimeError::MinuteRange)
        }
    } else if u == 's' {
        if num <= 59 {
            Ok(AbsFields { second: Some(num), ..f })
        } else {
            Err(TimeError::SecondRange)
        }
    } else {
        Ok(f)
    }
}

/// Parse an absolute time token against "now" and the configured offset.
#[verifier::rlimit(60)]
pub fn parse_absolute_time(input: &str, now_utc: i64, offset_hours: i64) -> (r: Result<
    i64,
    TimeError,
>)
    requires
        0 <= now_utc < SEC_COUNT,
        0 <= now_utc + offset_hours * 3600 < SEC_COUNT,
    ensures
        r == abs_time_of(input@, now_utc as int, offset_hours as int),
{
    let off = offset_hours * 3600;
    let local = now_utc + off;
    let now_c = civil_of_secs(local as u64);
    proof {
        lemma_civil_of_local_agrees(local as int, now_c);
    }
    let n = input.unicode_len();
    let mut i: usize = 0;
    let mut num: u64 = 0;
    let mut pending: Option<char> = None;
    let mut fields = AbsFields {
        year: None,
        month: None,
        day: None,
        weekday: None,
        hour: None,
        minute: None,
        second: None,
    };
    while i < n
        invariant
            i <= n,
            n == input@.len(),
            num <= 10000,
            fields_in_range(fields),
            abs_scan(input@, 0, None, 0, empty_fields()) == abs_scan(
                input@,
                i as int,
                pending,
                num as int,
                fields,
            ),
        decreases n - i,
    {
        let c = input.get_char(i);
        let cv = c as u32;
        if pending.is_some() && 48 <= cv && cv <= 57 {
            let nv = num * 10 + (cv - 48) as u64;
            num = if nv > 10000 {
                10000
            } else {
                nv
            };
        } else {
            if let Some(u) = pending {
                match apply_field_x(u, num, fields) {
                    Ok(f2) => {
                        fields = f2;
                    },
                    Err(e) => {
                        return Err(e);
                    },
                }
            }
            let unit = c == 'y' || c == 'M' || c == 'd' || c == 'w' || c == 'h' || c == 'm' || c
                == 's';
            pending = if unit {
                Some(c)
            } else {
                None
            };
            num = 0;
        }
        i = i + 1;
    }
    if let Some(u) = pending {
        match apply_field_x(u, num, fields) {
            Ok(f2) => {
                fields = f2;
            },
            Err(e) => {
                return Err(e);
            },
        }
    }
    let ghost f = fields;
    let fy = fields.year;
    let fmo = fields.month;
    let fd = fields.day;
    let fw = fields.weekday;
    let rh = match fields.hour {
        Some(v) => v,
        None => 0,
    };
    let rmi = match fields.minute {
        Some(v) => v,
        None => 0,
    };
    let rs = match fields.second {
        Some(v) => v,
        None => 0,
    };
    let ry: u64;
    let rmo: u64;
    let rd: u64;
    if fw.is_some() && fd.is_none() {
        let now_day = day_number_of_date(now_c.year, now_c.month, now_c.day);
        let cur = weekday_of(now_day);
        let w = match fw {
            Some(v) => v,
            None => 1,
        };
        let ahead = if w <= cur {
            w + 7 - cur
        } else {
            w - cur
        };
        let target = now_day + ahead;
        if target >= DAY_COUNT {
            return Err(TimeError::TooLarge);
        }
        let (ty, tmo, td) = date_of_day_number(target);
        proof {
            lemma_date_of_day_agrees(target as int, ty, tmo, td);
        }
        ry = ty;
        rmo = tmo;
        rd = td;
    } else {
        ry = match fy {
            Some(v) => v,
            None => now_c.year,
        };
        rmo = match fmo {
            Some(v) => v,
            None => now_c.month,
        };
        rd = match fd {
            Some(v) => v,
            None => now_c.day,
        };
    }
    let ghost rc = resolved_civil(f, civil_of_local(local as int));
    proof {
        assert(rc matches Ok(c) && c == (CivilTime {
            year: ry,
            month: rmo,
            day: rd,
            hour: rh,
            minute: rmi,
            second: rs,
        }));
    }
    if rd < 1 || rd > days_in_month(ry, rmo) {
        return Err(TimeError::InvalidDate(ry, rmo, rd, rh, rmi, rs));
    }
    let cv = CivilTime { year: ry, month: rmo, day: rd, hour: rh, minute: rmi, second: rs };
    let lsecs = secs_of_civil_time(&cv);
    Ok((lsecs as i64) - off)
}

/// The weekday rule never lands on "today": when the requested weekday is the
/// current one and no day is given, the resolved date is exactly a week
/// ahead of the local "now".
pub proof fn lemma_weekday_rolls_a_full_week(f: AbsFields, now: CivilTime, c: CivilTime)
    requires
        now.valid(),
        f.weekday.is_some(),
        f.day.is_none(),
        weekday_of_day(rata_die(now.year as int, now.month as int, now.day as int))
            == f.weekday.unwrap(),
        resolved_civil(f, now) == Result::<CivilTime, TimeError>::Ok(c),
    ensures
        valid_date(c.year as int, c.month as int, c.day as int),
        rata_die(c.year as int, c.month as int, c.day as int) == rata_die(
            now.year as int,
            now.month as int,
            now.day as int,
        ) + 7,
{
    let now_day = rata_die(now.year as int, now.month as int, now.day as int);
    lemma_rata_die_bounds(now.year as int, now.month as int, now.day as int);
    lemma_date_exists(now_day + 7);
    let t = date_of_day(now_day + 7);
    assert(valid_date(t.0 as int, t.1 as int, t.2 as int) && rata_die(
        t.0 as int,
        t.1 as int,
        t.2 as int,
    ) == now_day + 7);
}

} // verus!
