use timetrack::datetime::DateTime;
use timetrack::resolver::resolve;

fn reference_now() -> DateTime {
    DateTime::new(2025, 9, 7, 8, 16, 40).unwrap()
}

fn format(d: DateTime) -> String {
    format!("{} {}", d.format_ymd(), d.format_hms())
}

#[test]
fn test_valid_date() {
    let now = reference_now();

    let s = "2023-10-10T12:34:56  ".to_string();
    assert_eq!(
        format(resolve(Some(&s), now).unwrap()).as_str(),
        "2023-10-10 12:34:56"
    );

    let s = "  2023-09-10 11:34:56".to_string();
    assert_eq!(
        format(resolve(Some(&s), now).unwrap()).as_str(),
        "2023-09-10 11:34:56"
    );

    let s = "  2023-08-10".to_string();
    assert_eq!(
        format(resolve(Some(&s), now).unwrap()),
        "2023-08-10 08:16:40".to_string()
    );

    let s = "  09:05:55".to_string();
    assert_eq!(
        format(resolve(Some(&s), now).unwrap()),
        "2025-09-07 09:05:55".to_string()
    );

    let s = "  09:05".to_string();
    assert_eq!(
        format(resolve(Some(&s), now).unwrap()),
        "2025-09-07 09:05:00".to_string()
    );

    let s = "noW".to_string();
    assert_eq!(
        format(resolve(Some(&s), now).unwrap()),
        "2025-09-07 08:16:40".to_string()
    );
}

#[test]
fn test_invalid_date() {
    let now = reference_now();
    for s in ["invalid date", "2023-10-10T40:34:56", "2023", "50", "02"] {
        assert!(resolve(Some(&s.to_string()), now).is_err());
    }
}

#[test]
fn test_none_date() {
    let now = reference_now();
    assert_eq!(
        format(resolve(None, now).unwrap()),
        "2025-09-07 08:16:40".to_string()
    );
}

#[test]
fn resolves_partial_time_against_reference() {
    let now = reference_now();
    let s = "2024-02-29T23:59".to_string();
    let r = resolve(Some(&s), now).unwrap();
    assert_eq!(format(r), "2024-02-29 23:59:00");
}

#[test]
fn rejects_invalid_calendar_dates() {
    let now = reference_now();
    for s in [
        "2023-02-29",
        "2023-13-01",
        "2023-00-10",
        "2023-04-31",
        "2023-01-00",
        "12:60",
        "24:00",
        "00:00:60",
    ] {
        assert!(resolve(Some(&s.to_string()), now).is_err(), "{}", s);
    }
}

#[test]
fn leap_year_rules_apply() {
    let now = reference_now();
    assert!(resolve(Some(&"2024-02-29".to_string()), now).is_ok());
    assert!(resolve(Some(&"2000-02-29".to_string()), now).is_ok());
    assert!(resolve(Some(&"1900-02-29".to_string()), now).is_err());
}

#[test]
fn invalid_date_error_carries_input() {
    let now = reference_now();
    let s = "not a date".to_string();
    let e = resolve(Some(&s), now).unwrap_err();
    assert_eq!(e, timetrack::TrackError::InvalidDate(s));
    assert_eq!(e.message(), "Unable to parse date \"not a date\"");
    assert_eq!(
        timetrack::TrackError::NotFound.message(),
        "Unable to find the last tracked event"
    );
    assert_eq!(
        timetrack::TrackError::MalformedRecord.message(),
        "Unable to parse the stored event"
    );
}
