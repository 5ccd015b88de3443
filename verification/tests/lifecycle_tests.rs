use std::collections::BTreeMap;
use timetrack::datetime::DateTime;
use timetrack::event::Event;
use timetrack::lifecycle::{start_plan, stop_plan, Status, StopAction};

fn dt(y: u16, mo: u8, d: u8, h: u8, mi: u8, s: u8) -> DateTime {
    DateTime::new(y, mo, d, h, mi, s).unwrap()
}

fn open_event(project: &str, start: DateTime) -> Event {
    Event {
        project: project.to_string(),
        description: String::new(),
        tags: vec![],
        start,
        stop: None,
    }
}

#[test]
fn switching_projects_discards_a_short_open_event() {
    // Project "b" has been open for four seconds when "a" starts: the
    // closed "b" record is deleted, not saved, and a fresh open "a"
    // record takes its place.
    let b = open_event("b", dt(2025, 1, 1, 8, 0, 0));
    let start_time = dt(2025, 1, 1, 8, 0, 4);
    let plan = start_plan(
        Some(b),
        &"a".to_string(),
        vec![],
        None,
        start_time,
        start_time,
        None,
        300,
    );
    assert_eq!(plan.status, Status::Started);
    assert!(!plan.keep_prior);
    let closed = plan.closed_prior.expect("the open event must be closed");
    assert_eq!(closed.project, "b");
    assert_eq!(closed.stop, Some(start_time));
    assert_eq!(plan.event.project, "a");
    assert_eq!(plan.event.stop, None);
    assert_eq!(plan.event.start, start_time);
}

#[test]
fn switching_projects_keeps_a_long_open_event() {
    let b = open_event("b", dt(2025, 1, 1, 8, 0, 0));
    let start_time = dt(2025, 1, 1, 9, 0, 0);
    let plan = start_plan(
        Some(b),
        &"a".to_string(),
        vec![],
        None,
        start_time,
        start_time,
        None,
        300,
    );
    assert_eq!(plan.status, Status::Started);
    assert!(plan.keep_prior);
    assert_eq!(plan.closed_prior.unwrap().stop, Some(start_time));
}

#[test]
fn starting_the_same_project_continues_it() {
    // No second file appears: the resulting event keeps the original
    // start and project, so its canonical path is unchanged; tags merge.
    let mut a = open_event("a", dt(2025, 1, 1, 8, 0, 0));
    a.tags = vec!["x".to_string()];
    let original_path = a.rel_path();
    let plan = start_plan(
        Some(a),
        &"a".to_string(),
        vec!["y".to_string(), "x".to_string()],
        None,
        dt(2025, 1, 1, 9, 0, 0),
        dt(2025, 1, 1, 9, 0, 0),
        None,
        300,
    );
    assert_eq!(plan.status, Status::Tracking);
    assert!(plan.closed_prior.is_none());
    assert_eq!(plan.event.rel_path(), original_path);
    assert_eq!(plan.event.stop, None);
    assert_eq!(plan.event.tags, vec!["x".to_string(), "y".to_string()]);
}

#[test]
fn recently_stopped_same_project_resumes() {
    let mut a = open_event("a", dt(2025, 1, 1, 8, 0, 0));
    a.stop = Some(dt(2025, 1, 1, 9, 0, 0));
    let now = dt(2025, 1, 1, 9, 5, 0);
    let plan = start_plan(
        Some(a),
        &"a".to_string(),
        vec![],
        None,
        now,
        now,
        Some(600),
        300,
    );
    assert_eq!(plan.status, Status::Resumed);
    assert_eq!(plan.event.stop, None);
    assert_eq!(plan.event.start, dt(2025, 1, 1, 8, 0, 0));
}

#[test]
fn stale_stop_does_not_resume() {
    let mut a = open_event("a", dt(2025, 1, 1, 8, 0, 0));
    a.stop = Some(dt(2025, 1, 1, 9, 0, 0));
    let now = dt(2025, 1, 1, 9, 30, 0);
    let plan = start_plan(
        Some(a),
        &"a".to_string(),
        vec![],
        None,
        now,
        now,
        Some(600),
        300,
    );
    assert_eq!(plan.status, Status::Started);
    assert_eq!(plan.event.start, now);
}

#[test]
fn stopping_a_short_event_discards_it() {
    let a = open_event("a", dt(2025, 1, 1, 8, 0, 0));
    let plan = stop_plan(a, None, dt(2025, 1, 1, 8, 0, 4), 300);
    assert_eq!(plan.status, Status::Discarded);
    assert_eq!(plan.action, StopAction::Delete);
    assert_eq!(
        plan.event.description,
        "Event duration is lower than TT_MIN_DURATION"
    );
}

#[test]
fn stopping_a_long_event_saves_it() {
    let a = open_event("a", dt(2025, 1, 1, 8, 0, 0));
    let stop_time = dt(2025, 1, 1, 9, 0, 0);
    let plan = stop_plan(a, None, stop_time, 300);
    assert_eq!(plan.status, Status::Saved);
    assert_eq!(plan.action, StopAction::Save);
    assert_eq!(plan.event.stop, Some(stop_time));
}

#[test]
fn stopping_when_nothing_is_open_does_nothing() {
    let mut a = open_event("a", dt(2025, 1, 1, 8, 0, 0));
    a.stop = Some(dt(2025, 1, 1, 9, 0, 0));
    let plan = stop_plan(a, None, dt(2025, 1, 1, 10, 0, 0), 300);
    assert_eq!(plan.status, Status::Stopped);
    assert_eq!(plan.action, StopAction::Nothing);
}

#[test]
fn stopping_another_project_adds_a_tag_instead() {
    let a = open_event("a", dt(2025, 1, 1, 8, 0, 0));
    let guard = "b".to_string();
    let plan = stop_plan(a, Some(&guard), dt(2025, 1, 1, 9, 0, 0), 300);
    assert_eq!(plan.status, Status::AddedTag);
    assert_eq!(plan.action, StopAction::Save);
    assert_eq!(plan.event.stop, None);
    assert_eq!(plan.event.tags, vec!["b".to_string()]);
}

#[test]
fn short_tracked_interval_leaves_no_record_behind() {
    // Start at 08:00:00, stop four seconds later with the default
    // five-minute minimum: the stop plan deletes the file, and a store
    // holding only that file ends up empty.
    let mut store: BTreeMap<String, String> = BTreeMap::new();
    let now = dt(2025, 1, 1, 8, 0, 0);
    let plan = start_plan(
        None,
        &"writing".to_string(),
        vec![],
        None,
        now,
        now,
        None,
        300,
    );
    assert_eq!(plan.status, Status::Started);
    let text = timetrack::record::encode_record(&plan.event, &now, None);
    store.insert(plan.event.rel_path(), text);
    // Reload the single stored record as a scan would.
    let last = timetrack::parse::decode_record(store.values().next().unwrap()).unwrap();
    let stop_time = dt(2025, 1, 1, 8, 0, 4);
    let stop = stop_plan(last, None, stop_time, 300);
    assert_eq!(stop.action, StopAction::Delete);
    store.remove(&stop.event.rel_path());
    assert!(store.is_empty());
}
