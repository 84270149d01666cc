use ttd::date::day_number_of_date;
use ttd::rfc3339::{parse_rfc3339_utc, rfc3339_utc};

#[test]
fn writes_the_canonical_form() {
    let t = day_number_of_date(2026, 10, 9) as i64 * 86400 + 14 * 3600 + 30 * 60 + 5;
    assert_eq!(rfc3339_utc(t).unwrap(), "2026-10-09T14:30:05Z");
    assert_eq!(rfc3339_utc(0).unwrap(), "0001-01-01T00:00:00Z");
}

#[test]
fn refuses_instants_outside_the_calendar() {
    assert_eq!(rfc3339_utc(-1), None);
    assert_eq!(rfc3339_utc(i64::MAX), None);
}

#[test]
fn reads_back_what_it_wrote() {
    for &t in &[
        0i64,
        719162 * 86400,
        day_number_of_date(2024, 2, 29) as i64 * 86400 + 23 * 3600 + 59 * 60 + 59,
        3652059 * 86400 - 1,
    ] {
        let s = rfc3339_utc(t).unwrap();
        assert_eq!(parse_rfc3339_utc(&s), Some(t));
    }
}

#[test]
fn parses_a_known_string() {
    let t = parse_rfc3339_utc("1970-01-01T00:00:00Z").unwrap();
    assert_eq!(t, 719162 * 86400);
}

#[test]
fn rejects_what_the_writer_never_writes() {
    assert_eq!(parse_rfc3339_utc(""), None);
    assert_eq!(parse_rfc3339_utc("not a time"), None);
    assert_eq!(parse_rfc3339_utc("2026-10-09 14:30:05Z"), None);
    assert_eq!(parse_rfc3339_utc("2026-13-09T14:30:05Z"), None);
    assert_eq!(parse_rfc3339_utc("2023-02-29T00:00:00Z"), None);
    assert_eq!(parse_rfc3339_utc("2026-10-09T24:30:05Z"), None);
    assert_eq!(parse_rfc3339_utc("0000-01-01T00:00:00Z"), None);
}
