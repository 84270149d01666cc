use ttd::date::{
    civil_of_secs, date_of_day_number, day_number_of_date, days_in_month, leap_year,
    secs_of_civil_time, weekday_of, CivilTime,
};

#[test]
fn leap_years() {
    assert!(leap_year(2024));
    assert!(!leap_year(2023));
    assert!(!leap_year(1900));
    assert!(leap_year(2000));
}

#[test]
fn month_lengths() {
    assert_eq!(days_in_month(2024, 2), 29);
    assert_eq!(days_in_month(2023, 2), 28);
    assert_eq!(days_in_month(2023, 1), 31);
    assert_eq!(days_in_month(2023, 4), 30);
    assert_eq!(days_in_month(2023, 12), 31);
}

#[test]
fn unix_epoch_day_number() {
    // 1970-01-01 is day 719162 from 0001-01-01, a Thursday.
    let n = day_number_of_date(1970, 1, 1);
    assert_eq!(n, 719162);
    assert_eq!(weekday_of(n), 4);
}

#[test]
fn first_day_is_a_monday() {
    assert_eq!(day_number_of_date(1, 1, 1), 0);
    assert_eq!(weekday_of(0), 1);
}

#[test]
fn day_number_round_trip() {
    for &(y, m, d) in &[(1u64, 1u64, 1u64), (1970, 1, 1), (2024, 2, 29), (9999, 12, 31), (2026, 10, 9)] {
        let n = day_number_of_date(y, m, d);
        assert_eq!(date_of_day_number(n), (y, m, d));
    }
}

#[test]
fn civil_seconds_round_trip() {
    let c = CivilTime { year: 2026, month: 10, day: 9, hour: 14, minute: 30, second: 5 };
    let t = secs_of_civil_time(&c);
    let back = civil_of_secs(t);
    assert_eq!(back.year, 2026);
    assert_eq!(back.month, 10);
    assert_eq!(back.day, 9);
    assert_eq!(back.hour, 14);
    assert_eq!(back.minute, 30);
    assert_eq!(back.second, 5);
}

#[test]
fn civil_of_known_second() {
    // 75599 seconds from the epoch day: 1970-01-01 20:59:59.
    let t = 719162u64 * 86400 + 20 * 3600 + 59 * 60 + 59;
    let c = civil_of_secs(t);
    assert_eq!((c.year, c.month, c.day), (1970, 1, 1));
    assert_eq!((c.hour, c.minute, c.second), (20, 59, 59));
}
