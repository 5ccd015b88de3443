use timetrack::datetime::DateTime;
use timetrack::event::Event;
use timetrack::parse::decode_record;
use timetrack::record::encode_record;
use timetrack::TrackError;

fn dt(y: u16, mo: u8, d: u8, h: u8, mi: u8, s: u8) -> DateTime {
    DateTime::new(y, mo, d, h, mi, s).unwrap()
}

fn sample_event() -> Event {
    Event {
        project: "writing".to_string(),
        description: "drafting \"chapter\" one\nwith a \\ twist".to_string(),
        tags: vec!["draft".to_string(), "novel".to_string(), "draft".to_string()],
        start: dt(2025, 1, 1, 8, 0, 0),
        stop: Some(dt(2025, 1, 1, 9, 30, 0)),
    }
}

#[test]
fn encode_then_decode_round_trips() {
    let e = sample_event();
    let now = dt(2025, 1, 2, 12, 0, 0);
    let user = "someone".to_string();
    let text = encode_record(&e, &now, Some(&user));
    let back = decode_record(&text).unwrap();
    assert_eq!(back.project, e.project);
    assert_eq!(back.description, e.description);
    assert_eq!(back.tags, e.tags);
    assert_eq!(back.start, e.start);
    assert_eq!(back.stop, e.stop);
}

#[test]
fn open_event_round_trips_without_stop() {
    let mut e = sample_event();
    e.stop = None;
    let now = dt(2025, 1, 1, 8, 0, 30);
    let text = encode_record(&e, &now, None);
    assert!(text.contains("\"stop\":null"));
    let back = decode_record(&text).unwrap();
    assert_eq!(back.stop, None);
    assert_eq!(back.start, e.start);
}

#[test]
fn encoded_text_has_expected_shape() {
    let e = Event {
        project: "p".to_string(),
        description: String::new(),
        tags: vec![],
        start: dt(2025, 1, 1, 8, 0, 0),
        stop: Some(dt(2025, 1, 1, 8, 10, 0)),
    };
    let now = dt(2025, 1, 1, 9, 0, 0);
    let text = encode_record(&e, &now, None);
    assert_eq!(
        text,
        "{\"__CLASS__\":\"App::TimeTracker::Data::Task\",\"description\":\"\",\
         \"duration\":\"00:10:00\",\"project\":\"p\",\"seconds\":600,\
         \"start\":\"2025-01-01T08:00:00\",\"stop\":\"2025-01-01T08:10:00\",\
         \"tags\":[],\"user\":null}"
    );
}

#[test]
fn decode_accepts_any_field_order_and_unknown_fields() {
    let text = r#"
      {
        "extra": {"nested": [1, 2, {"deep": "x"}]},
        "tags": ["a", "b"],
        "start": "2024-06-01T07:15:00",
        "seconds": 123,
        "project": "gardening",
        "note": null
      }
    "#;
    let e = decode_record(text).unwrap();
    assert_eq!(e.project, "gardening");
    assert_eq!(e.description, "");
    assert_eq!(e.tags, vec!["a".to_string(), "b".to_string()]);
    assert_eq!(e.start, dt(2024, 6, 1, 7, 15, 0));
    assert_eq!(e.stop, None);
}

#[test]
fn decode_handles_escapes() {
    let text = r#"{"project":"a\tb\u0041\ud83d\ude00","start":"2024-06-01T07:15:00","tags":[]}"#;
    let e = decode_record(text).unwrap();
    assert_eq!(e.project, "a\tbA\u{1F600}");
}

#[test]
fn control_characters_round_trip_through_unicode_escapes() {
    let e = Event {
        project: "p\u{1}q".to_string(),
        description: String::new(),
        tags: vec![],
        start: dt(2025, 1, 1, 8, 0, 0),
        stop: None,
    };
    let now = dt(2025, 1, 1, 9, 0, 0);
    let text = encode_record(&e, &now, None);
    assert!(text.contains("\\u0001"));
    assert_eq!(decode_record(&text).unwrap().project, e.project);
}

#[test]
fn decode_treats_null_description_as_empty() {
    let text = r#"{"project":"p","description":null,"start":"2024-06-01T07:15:00","tags":[]}"#;
    let e = decode_record(text).unwrap();
    assert_eq!(e.description, "");
}

#[test]
fn decode_ignores_unparseable_stop() {
    let text = r#"{"project":"p","start":"2024-06-01T07:15:00","stop":"whenever","tags":[]}"#;
    let e = decode_record(text).unwrap();
    assert_eq!(e.stop, None);
}

#[test]
fn decode_rejects_malformed_records() {
    for text in [
        "",
        "not json",
        "{",
        r#"{"project":"p","tags":[]}"#,
        r#"{"start":"2024-06-01T07:15:00","tags":[]}"#,
        r#"{"project":"p","start":"2024-06-01T07:15:00"}"#,
        r#"{"project":"p","start":"not a time","tags":[]}"#,
        r#"{"project":"p","start":"2024-06-01T07:15:00","tags":[]} trailing"#,
        r#"{"project":"p","project":"q","start":"2024-06-01T07:15:00","tags":[]}"#,
        r#"{"project":7,"start":"2024-06-01T07:15:00","tags":[]}"#,
        r#"{"project":"p","start":"2024-06-01T07:15:00","tags":[7]}"#,
    ] {
        assert_eq!(
            decode_record(text).unwrap_err(),
            TrackError::MalformedRecord,
            "{}",
            text
        );
    }
}

#[test]
fn canonical_paths_follow_start_and_project() {
    let e = sample_event();
    assert_eq!(e.file_name(), "20250101-080000_writing.trc");
    assert_eq!(e.rel_path(), "2025/01/20250101-080000_writing.trc");
}

#[test]
fn display_helpers_fall_back_to_a_dash() {
    let mut e = sample_event();
    assert_eq!(e.tags_display(), "draft,novel");
    assert_eq!(e.description_display(), e.description);
    e.tags.clear();
    e.description.clear();
    assert_eq!(e.tags_display(), "\u{2014}");
    assert_eq!(e.description_display(), "\u{2014}");
}
