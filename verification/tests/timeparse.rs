use ttd::date::day_number_of_date;
use ttd::timeparse::{parse_absolute_time, parse_relative_time, TimeError};

// Seconds from 0001-01-01 to 1970-01-01.
const EPOCH_1970: i64 = 719162 * 86400;

#[test]
fn relative_duration_expression() {
    assert_eq!(parse_relative_time("2h30m", 1000), Ok(1000 + 9000));
    assert_eq!(parse_relative_time("90s", 1000), Ok(1090));
}

#[test]
fn relative_duration_words() {
    // "1week" is a duration expression; the fallback scanner knows no `w`
    // unit and would add nothing, so this fails if the duration parser is
    // not consulted.
    assert_eq!(parse_relative_time("1week", 1000), Ok(1000 + 604800));
}

#[test]
fn relative_fallback_scanner() {
    // not a duration expression: the scanner skips the `x` and reads `2h`
    assert_eq!(parse_relative_time("x2h", 1000), Ok(1000 + 7200));
    // unrecognized unit letters are skipped, their number counts nothing
    assert_eq!(parse_relative_time("7q2m", 1000), Ok(1000 + 120));
    // trailing digits with no unit count nothing
    assert_eq!(parse_relative_time("5", 1000), Ok(1000));
    // compound offsets accumulate: a year counts as 365 days
    assert_eq!(parse_relative_time("x1y1d", 0), Ok(366 * 86400));
}

#[test]
fn long_relative_tokens_take_the_fallback_scanner() {
    // 29 characters: the duration parser is never consulted, and the
    // fallback scanner knows no `w` unit, so the weeks count nothing
    assert_eq!(
        parse_relative_time("1week 1week 1week 1week 1week", 1000),
        Ok(1000)
    );
    // the token that could drive the duration parser into its overflow
    // corner is routed to the fallback scanner and rejected as too large
    assert_eq!(
        parse_relative_time("18446744073709551615s1000ms", 0),
        Err(TimeError::TooLarge)
    );
}

#[test]
fn relative_too_large() {
    assert_eq!(
        parse_relative_time("x9999999999999999999y", 0),
        Err(TimeError::TooLarge)
    );
}

#[test]
fn absolute_month_out_of_range() {
    assert_eq!(
        parse_absolute_time("M13d1", EPOCH_1970, 3),
        Err(TimeError::MonthRange)
    );
}

#[test]
fn absolute_field_ranges() {
    assert_eq!(parse_absolute_time("y0", EPOCH_1970, 0), Err(TimeError::YearRange));
    assert_eq!(parse_absolute_time("y10000", EPOCH_1970, 0), Err(TimeError::YearRange));
    assert_eq!(parse_absolute_time("d32", EPOCH_1970, 0), Err(TimeError::DayRange));
    assert_eq!(parse_absolute_time("d0", EPOCH_1970, 0), Err(TimeError::DayRange));
    assert_eq!(parse_absolute_time("w8", EPOCH_1970, 0), Err(TimeError::WeekdayRange));
    assert_eq!(parse_absolute_time("h24", EPOCH_1970, 0), Err(TimeError::HourRange));
    assert_eq!(parse_absolute_time("m60", EPOCH_1970, 0), Err(TimeError::MinuteRange));
    assert_eq!(parse_absolute_time("s60", EPOCH_1970, 0), Err(TimeError::SecondRange));
}

#[test]
fn absolute_time_of_day_in_configured_offset() {
    // Local time 23:59:59 on the local current date (1970-01-01 at +3),
    // converted back to UTC by the 3-hour offset.
    let r = parse_absolute_time("h23m59s59", EPOCH_1970, 3);
    assert_eq!(r, Ok(EPOCH_1970 + 23 * 3600 + 59 * 60 + 59 - 3 * 3600));
}

#[test]
fn absolute_date_only_means_midnight() {
    let n = day_number_of_date(2000, 6, 15) as i64;
    let r = parse_absolute_time("y2000M6d15", EPOCH_1970, 3);
    assert_eq!(r, Ok(n * 86400 - 3 * 3600));
}

#[test]
fn absolute_invalid_calendar_date() {
    assert_eq!(
        parse_absolute_time("y2023M2d29", EPOCH_1970, 0),
        Err(TimeError::InvalidDate(2023, 2, 29, 0, 0, 0))
    );
}

#[test]
fn weekday_same_day_rolls_a_full_week() {
    // 1970-01-07 is a Wednesday; asking for weekday 3 (Wednesday) with no
    // explicit day lands a week later, never today.
    let wednesday = (719162 + 6) * 86400;
    let r = parse_absolute_time("w3", wednesday, 0);
    assert_eq!(r, Ok(wednesday + 7 * 86400));
}

#[test]
fn weekday_next_occurrence() {
    // From Wednesday, weekday 5 (Friday) is two days ahead.
    let wednesday = (719162 + 6) * 86400;
    let r = parse_absolute_time("w5", wednesday, 0);
    assert_eq!(r, Ok(wednesday + 2 * 86400));
}

#[test]
fn weekday_with_explicit_day_does_not_roll() {
    // An explicit day disables the weekday rule: d9 names the 9th directly.
    let wednesday = (719162 + 6) * 86400;
    let r = parse_absolute_time("w3d9", wednesday, 0);
    assert_eq!(r, Ok((719162 + 8) * 86400));
}

#[test]
fn unrecognized_letters_are_skipped_in_absolute_tokens() {
    let r1 = parse_absolute_time("h6", EPOCH_1970, 0);
    let r2 = parse_absolute_time("zzh6qq", EPOCH_1970, 0);
    assert_eq!(r1, r2);
    assert_eq!(r1, Ok(EPOCH_1970 + 6 * 3600));
}

#[test]
fn weekday_beyond_the_calendar_is_too_large() {
    // "now" on 9999-12-31: any weekday request would leave the calendar
    let last_day = 3652059i64 * 86400 - 1;
    assert_eq!(parse_absolute_time("w3", last_day, 0), Err(TimeError::TooLarge));
}
