use std::collections::BTreeMap;
use timetrack::datetime::DateTime;
use timetrack::event::Event;
use timetrack::parse::decode_record;
use timetrack::record::encode_record;
use timetrack::store::{is_record_file, name_date_in_range, sort_events_by_start, sort_names_desc};

fn dt(y: u16, mo: u8, d: u8, h: u8, mi: u8, s: u8) -> DateTime {
    DateTime::new(y, mo, d, h, mi, s).unwrap()
}

fn event_at(project: &str, start: DateTime) -> Event {
    Event {
        project: project.to_string(),
        description: String::new(),
        tags: vec![],
        start,
        stop: Some(dt(start.year, start.month, start.day, 23, 0, 0)),
    }
}

#[test]
fn record_extensions_are_trc_and_json() {
    assert!(is_record_file(&"20250101-080000_a.trc".to_string()));
    assert!(is_record_file(&"legacy.json".to_string()));
    assert!(!is_record_file(&"notes.txt".to_string()));
    assert!(!is_record_file(&".trc".to_string()));
    assert!(!is_record_file(&"trc".to_string()));
    assert!(!is_record_file(&"a.trc.bak".to_string()));
}

#[test]
fn name_encoded_dates_filter_the_range() {
    let since = dt(2024, 2, 1, 0, 0, 0);
    let until = dt(2024, 3, 15, 23, 59, 59);
    assert!(name_date_in_range(
        &"20240201-000000_a.trc".to_string(),
        &since,
        &until
    ));
    assert!(name_date_in_range(
        &"20240315-235959_a.trc".to_string(),
        &since,
        &until
    ));
    assert!(!name_date_in_range(
        &"20240131-120000_a.trc".to_string(),
        &since,
        &until
    ));
    assert!(!name_date_in_range(
        &"20240316-000000_a.trc".to_string(),
        &since,
        &until
    ));
    // A corrupted name date never qualifies.
    assert!(!name_date_in_range(&"2024x201_a.trc".to_string(), &since, &until));
    assert!(!name_date_in_range(&"20240231-000000_a.trc".to_string(), &since, &until));
    assert!(!name_date_in_range(&"short".to_string(), &since, &until));
}

#[test]
fn names_sort_descending() {
    let names = vec![
        "2023".to_string(),
        "2025".to_string(),
        "2024".to_string(),
    ];
    let sorted = sort_names_desc(names);
    assert_eq!(sorted, vec!["2025", "2024", "2023"]);
}

#[test]
fn events_sort_ascending_by_start() {
    let events = vec![
        event_at("b", dt(2025, 3, 1, 9, 0, 0)),
        event_at("a", dt(2023, 1, 1, 8, 0, 0)),
        event_at("c", dt(2024, 12, 31, 23, 59, 59)),
    ];
    let sorted = sort_events_by_start(events);
    let projects: Vec<&str> = sorted.iter().map(|e| e.project.as_str()).collect();
    assert_eq!(projects, vec!["a", "c", "b"]);
}

#[test]
fn descending_name_order_finds_the_most_recent_event() {
    // Sparse data over three years, inserted in scrambled order; the
    // first record file in descending name order holds the event with
    // the maximum start, as in the store's most-recent lookup.
    let now = dt(2025, 6, 1, 12, 0, 0);
    let starts = vec![
        dt(2023, 7, 4, 9, 0, 0),
        dt(2025, 2, 1, 7, 30, 0),
        dt(2024, 12, 31, 23, 0, 0),
        dt(2025, 2, 1, 7, 29, 59),
        dt(2023, 1, 15, 22, 10, 5),
    ];
    let mut files: BTreeMap<String, String> = BTreeMap::new();
    for s in &starts {
        let e = event_at("p", *s);
        files.insert(e.file_name(), encode_record(&e, &now, None));
    }
    let names = sort_names_desc(files.keys().cloned().collect());
    let mut found = None;
    for name in names {
        if !is_record_file(&name) {
            continue;
        }
        if let Ok(e) = decode_record(&files[&name]) {
            found = Some(e);
            break;
        }
    }
    let found = found.unwrap();
    assert_eq!(found.start, dt(2025, 2, 1, 7, 30, 0));
}

#[test]
fn seconds_arithmetic_matches_known_values() {
    let a = dt(2025, 1, 1, 0, 0, 0);
    let b = dt(2025, 1, 2, 0, 0, 0);
    assert_eq!(b.seconds_since(&a), 86400);
    // Across the leap day.
    let c = dt(2024, 2, 28, 12, 0, 0);
    let d = dt(2024, 3, 1, 12, 0, 0);
    assert_eq!(d.seconds_since(&c), 2 * 86400);
    // And across a non-leap February.
    let e = dt(2023, 2, 28, 12, 0, 0);
    let f = dt(2023, 3, 1, 12, 0, 0);
    assert_eq!(f.seconds_since(&e), 86400);
    // Negative differences are signed.
    assert_eq!(a.seconds_since(&b), -86400);
}

#[test]
fn formatting_is_zero_padded() {
    let a = dt(987, 1, 5, 3, 4, 9);
    assert_eq!(a.format_rfc3339(), "0987-01-05T03:04:09");
    assert_eq!(a.format_ymd(), "0987-01-05");
    assert_eq!(a.format_hm(), "03:04");
    assert_eq!(a.format_hms(), "03:04:09");
    assert_eq!(a.format_full(), "0987-01-05 03:04");
}
