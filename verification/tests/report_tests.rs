use timetrack::datetime::DateTime;
use timetrack::event::Event;
use timetrack::report::{aggregate, filter_events, matches_filter};

fn dt(y: u16, mo: u8, d: u8, h: u8, mi: u8, s: u8) -> DateTime {
    DateTime::new(y, mo, d, h, mi, s).unwrap()
}

fn closed_event(project: &str, start: DateTime, stop: DateTime, tags: &[&str]) -> Event {
    Event {
        project: project.to_string(),
        description: String::new(),
        tags: tags.iter().map(|t| t.to_string()).collect(),
        start,
        stop: Some(stop),
    }
}

#[test]
fn grouping_collapses_same_day_runs_and_keeps_totals() {
    // Three same-day, same-project events of one, two and three hours:
    // grouped they are one six-hour row, ungrouped three rows summing to
    // six hours, and the totals agree in both modes.
    let now = dt(2025, 3, 2, 12, 0, 0);
    let events = vec![
        closed_event("a", dt(2025, 3, 1, 8, 0, 0), dt(2025, 3, 1, 9, 0, 0), &["x"]),
        closed_event("a", dt(2025, 3, 1, 10, 0, 0), dt(2025, 3, 1, 12, 0, 0), &["y"]),
        closed_event("a", dt(2025, 3, 1, 13, 0, 0), dt(2025, 3, 1, 16, 0, 0), &["x"]),
    ];
    let (grouped, totals_g) = aggregate(&events, true, now);
    assert_eq!(grouped.len(), 1);
    assert_eq!(grouped[0].duration, 6 * 3600);
    assert_eq!(
        grouped[0].tags,
        vec!["x".to_string(), "y".to_string(), "x".to_string()]
    );
    let (flat, totals_f) = aggregate(&events, false, now);
    assert_eq!(flat.len(), 3);
    assert_eq!(flat.iter().map(|r| r.duration).sum::<i64>(), 6 * 3600);
    assert_eq!(totals_g.count, 3);
    assert_eq!(totals_f.count, 3);
    assert_eq!(totals_g.seconds, 6 * 3600);
    assert_eq!(totals_f.seconds, 6 * 3600);
}

#[test]
fn grouping_breaks_on_day_and_project_changes() {
    let now = dt(2025, 3, 3, 12, 0, 0);
    let events = vec![
        closed_event("a", dt(2025, 3, 1, 8, 0, 0), dt(2025, 3, 1, 9, 0, 0), &[]),
        closed_event("b", dt(2025, 3, 1, 10, 0, 0), dt(2025, 3, 1, 11, 0, 0), &[]),
        closed_event("b", dt(2025, 3, 2, 10, 0, 0), dt(2025, 3, 2, 11, 30, 0), &[]),
    ];
    let (rows, totals) = aggregate(&events, true, now);
    assert_eq!(rows.len(), 3);
    assert_eq!(rows[2].duration, 90 * 60);
    assert_eq!(totals.count, 3);
}

#[test]
fn open_events_report_a_live_duration() {
    let now = dt(2025, 3, 1, 8, 30, 0);
    let events = vec![Event {
        project: "a".to_string(),
        description: String::new(),
        tags: vec![],
        start: dt(2025, 3, 1, 8, 0, 0),
        stop: None,
    }];
    let (rows, totals) = aggregate(&events, false, now);
    assert_eq!(rows[0].duration, 30 * 60);
    assert_eq!(totals.seconds, 30 * 60);
}

#[test]
fn filters_select_by_project_and_tag() {
    let e1 = closed_event("a", dt(2025, 3, 1, 8, 0, 0), dt(2025, 3, 1, 9, 0, 0), &["x"]);
    let e2 = closed_event("b", dt(2025, 3, 1, 10, 0, 0), dt(2025, 3, 1, 11, 0, 0), &["y"]);
    let a = "a".to_string();
    let y = "y".to_string();
    assert!(matches_filter(&e1, Some(&a), None));
    assert!(!matches_filter(&e2, Some(&a), None));
    assert!(matches_filter(&e2, None, Some(&y)));
    assert!(!matches_filter(&e1, None, Some(&y)));
    assert!(matches_filter(&e1, None, None));
    let kept = filter_events(vec![e1, e2], Some(&a), None);
    assert_eq!(kept.len(), 1);
    assert_eq!(kept[0].project, "a");
}

#[test]
fn filtered_out_events_do_not_reach_totals() {
    let now = dt(2025, 3, 2, 12, 0, 0);
    let events = vec![
        closed_event("a", dt(2025, 3, 1, 8, 0, 0), dt(2025, 3, 1, 9, 0, 0), &[]),
        closed_event("b", dt(2025, 3, 1, 10, 0, 0), dt(2025, 3, 1, 11, 0, 0), &[]),
    ];
    let a = "a".to_string();
    let kept = filter_events(events, Some(&a), None);
    let (_, totals) = aggregate(&kept, false, now);
    assert_eq!(totals.count, 1);
    assert_eq!(totals.seconds, 3600);
}
