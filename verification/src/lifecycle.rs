//! The start/stop/resume state machine, including the minimum-duration
//! discard rule and the resume-window rule.
//!
//! The functions here are pure: they take the last stored event and the
//! relevant instants, and return a plan saying which records to delete,
//! save or leave alone. The caller performs the file operations.

use vstd::prelude::*;

verus! {

use crate::datetime::{DateTime, total_seconds};
use crate::event::{Event, merge_tags};

/// The outcome label of a lifecycle operation.
#[derive(Clone, Copy, Debug, PartialEq, Eq, Structural)]
pub enum Status {
    /// A new event was created.
    Started,
    /// The same project was already open; it simply continues.
    Tracking,
    /// A recently stopped event of the same project was reopened.
    Resumed,
    /// An open event was closed and kept.
    Saved,
    /// An open event was closed and, being too short, deleted.
    Discarded,
    /// There was nothing open to stop.
    Stopped,
    /// Instead of stopping another project's event, a tag was added.
    AddedTag,
}

/// Whether the last stored event leaves the tracker in the open state.
pub open spec fn is_open(last: Option<Event>) -> bool {
    match last {
        Some(e) => e.stop is None,
        None => false,
    }
}

/// What a `start` operation must do to the store.
pub struct StartPlan {
    /// A previously open event of another project, closed at the start
    /// time; it is saved when `keep_prior` holds and deleted otherwise.
    pub closed_prior: Option<Event>,
    /// Whether the closed prior event is long enough to keep.
    pub keep_prior: bool,
    /// The event to persist, open at the end of the operation.
    pub event: Event,
    /// The outcome label.
    pub status: Status,
}

/// Whether a closed last event may be resumed: same project, stopped,
/// and its stop time within `window` seconds of `now`.
pub open spec fn can_resume(
    last: Option<Event>,
    project: Seq<char>,
    now: DateTime,
    window: Option<i64>,
) -> bool {
    match (last, window) {
        (Some(e), Some(w)) => e.project@ == project && match e.stop {
            Some(t) => total_seconds(now) - total_seconds(t) <= w,
            None => false,
        },
        _ => false,
    }
}

/// The description an operation leaves on the resulting event: the
/// supplied one when present, the prior text otherwise.
pub open spec fn described(prior: Seq<char>, description: Option<Seq<char>>) -> Seq<char> {
    match description {
        Some(d) => d,
        None => prior,
    }
}

impl StartPlan {
    /// The plan's event is open, carries the requested project's name in
    /// the fresh cases, and is well formed.
    pub open spec fn wf(self) -> bool {
        &&& self.event.wf()
        &&& match self.closed_prior {
            Some(c) => c.wf(),
            None => true,
        }
    }
}

/// Plans a `start` operation against the last stored event.
///
/// While another project is open, it is closed at `start_time` first and
/// discarded when shorter than `min_duration`. Starting an already open
/// project merely continues it. A closed event of the same project whose
/// stop lies within `resume_window` of `now` is reopened. Otherwise a
/// fresh open event is created. Supplied tags are merged and a supplied
/// description overwrites the old one in every case.
pub fn start_plan(
    last: Option<Event>,
    project: &String,
    tags: Vec<String>,
    description: Option<&String>,
    start_time: DateTime,
    now: DateTime,
    resume_window: Option<i64>,
    min_duration: i64,
) -> (r: StartPlan)
    requires
        match last {
            Some(e) => e.wf(),
            None => true,
        },
        start_time.wf(),
        now.wf(),
    ensures
        r.wf(),
        r.event.stop is None,
        // Continuing an open event of the same project.
        (match last {
            Some(e) => e.stop is None && e.project@ == project@,
            None => false,
        }) ==> {
            let e = last->Some_0;
            &&& r.status == Status::Tracking
            &&& r.closed_prior is None
            &&& r.event.project@ == e.project@
            &&& r.event.start == e.start
            &&& r.event.description@ == described(
                e.description@,
                match description {
                    Some(d) => Some(d@),
                    None => None,
                },
            )
            &&& r.event.tags.deep_view() == merge_tags(e.tags.deep_view(), tags.deep_view())
        },
        // Closing an open event of another project, then starting fresh.
        (match last {
            Some(e) => e.stop is None && e.project@ != project@,
            None => false,
        }) ==> {
            let e = last->Some_0;
            &&& r.status == Status::Started
            &&& match r.closed_prior {
                Some(c) => {
                    &&& c.project@ == e.project@
                    &&& c.description@ == e.description@
                    &&& c.tags.deep_view() == e.tags.deep_view()
                    &&& c.start == e.start
                    &&& c.stop == Some(start_time)
                },
                None => false,
            }
            &&& r.keep_prior == (total_seconds(start_time) - total_seconds(e.start)
                >= min_duration)
            &&& fresh_event_shape(r.event, project@, tags.deep_view(), match description {
                Some(d) => Some(d@),
                None => None,
            }, start_time)
        },
        // Resuming a recently stopped event of the same project.
        (!is_open(last) && can_resume(last, project@, now, resume_window)) ==> {
            let e = last->Some_0;
            &&& r.status == Status::Resumed
            &&& r.closed_prior is None
            &&& r.event.project@ == e.project@
            &&& r.event.start == e.start
            &&& r.event.description@ == described(
                e.description@,
                match description {
                    Some(d) => Some(d@),
                    None => None,
                },
            )
            &&& r.event.tags.deep_view() == merge_tags(e.tags.deep_view(), tags.deep_view())
        },
        // Starting from scratch.
        (!is_open(last) && !can_resume(last, project@, now, resume_window)) ==> {
            &&& r.status == Status::Started
            &&& r.closed_prior is None
            &&& fresh_event_shape(r.event, project@, tags.deep_view(), match description {
                Some(d) => Some(d@),
                None => None,
            }, start_time)
        },
{
    let is_open_now = match &last {
        Some(e) => e.stop.is_none(),
        None => false,
    };
    let same_project = match &last {
        Some(e) => e.project.eq(project),
        None => false,
    };
    let resumable = if is_open_now {
        false
    } else {
        match (&last, resume_window) {
            (Some(e), Some(w)) => same_project && match e.stop {
                Some(t) => now.seconds_since(&t) <= w,
                None => false,
            },
            _ => false,
        }
    };
    let mut plan: StartPlan = if is_open_now && same_project {
        let e = match last {
            Some(e) => e,
            None => unreached(),
        };
        StartPlan { closed_prior: None, keep_prior: false, event: e, status: Status::Tracking }
    } else if is_open_now {
        let e = match last {
            Some(e) => e,
            None => unreached(),
        };
        let keep = start_time.seconds_since(&e.start) >= min_duration;
        let closed = Event {
            project: e.project,
            description: e.description,
            tags: e.tags,
            start: e.start,
            stop: Some(start_time),
        };
        StartPlan {
            closed_prior: Some(closed),
            keep_prior: keep,
            event: fresh_event(project, start_time),
            status: Status::Started,
        }
    } else if resumable {
        let e = match last {
            Some(e) => e,
            None => unreached(),
        };
        let reopened = Event {
            project: e.project,
            description: e.description,
            tags: e.tags,
            start: e.start,
            stop: None,
        };
        StartPlan { closed_prior: None, keep_prior: false, event: reopened, status: Status::Resumed }
    } else {
        StartPlan {
            closed_prior: None,
            keep_prior: false,
            event: fresh_event(project, start_time),
            status: Status::Started,
        }
    };
    if let Some(d) = description {
        plan.event.description = d.clone();
    }
    plan.event.add_tags(tags);
    plan
}

/// The shape of a brand-new open event.
pub open spec fn fresh_event_shape(
    e: Event,
    project: Seq<char>,
    tags: Seq<Seq<char>>,
    description: Option<Seq<char>>,
    start_time: DateTime,
) -> bool {
    &&& e.project@ == project
    &&& e.start == start_time
    &&& e.stop is None
    &&& e.description@ == described(Seq::empty(), description)
    &&& e.tags.deep_view() == merge_tags(Seq::empty(), tags)
}

/// A brand-new open event with no description and no tags yet.
fn fresh_event(project: &String, start_time: DateTime) -> (r: Event)
    requires
        start_time.wf(),
    ensures
        r.wf(),
        r.project@ == project@,
        r.description@ == Seq::<char>::empty(),
        r.tags.deep_view() == Seq::<Seq<char>>::empty(),
        r.start == start_time,
        r.stop is None,
{
    let r = Event {
        project: project.clone(),
        description: String::new(),
        tags: Vec::new(),
        start: start_time,
        stop: None,
    };
    proof {
        assert(r.tags.deep_view() =~= Seq::<Seq<char>>::empty());
    }
    r
}

/// What a `stop` operation must do to the store.
pub struct StopPlan {
    /// Whether the resulting event is saved, its file deleted, or
    /// nothing written.
    pub action: StopAction,
    /// The resulting event, as reported to the user.
    pub event: Event,
    /// The outcome label.
    pub status: Status,
}

/// The store operation a `stop` asks for.
#[derive(Clone, Copy, Debug, PartialEq, Eq, Structural)]
pub enum StopAction {
    Save,
    Delete,
    Nothing,
}

/// Plans a `stop` operation on the last stored event.
///
/// Stopping while nothing is open does nothing. When a guard project is
/// supplied and a different project is open, the guard is added as a tag
/// instead of stopping. Otherwise the open event is closed at
/// `stop_time`; when its duration falls below `min_duration` its file is
/// deleted and the event is reported with an explanatory description,
/// else it is saved.
pub fn stop_plan(
    last: Event,
    tag_unless_same_project: Option<&String>,
    stop_time: DateTime,
    min_duration: i64,
) -> (r: StopPlan)
    requires
        last.wf(),
        stop_time.wf(),
    ensures
        r.event.wf(),
        // Already closed: nothing happens.
        last.stop is Some ==> {
            &&& r.status == Status::Stopped
            &&& r.action == StopAction::Nothing
            &&& event_like(r.event, last)
        },
        // A different project is open and a guard is supplied: tag it.
        (last.stop is None && match tag_unless_same_project {
            Some(p) => last.project@ != p@,
            None => false,
        }) ==> {
            &&& r.status == Status::AddedTag
            &&& r.action == StopAction::Save
            &&& r.event.project@ == last.project@
            &&& r.event.description@ == last.description@
            &&& r.event.start == last.start
            &&& r.event.stop is None
            &&& r.event.tags.deep_view() == merge_tags(
                last.tags.deep_view(),
                seq![tag_unless_same_project->Some_0@],
            )
        },
        // Close the open event; discard it when too short.
        (last.stop is None && match tag_unless_same_project {
            Some(p) => last.project@ == p@,
            None => true,
        }) ==> {
            let dur = total_seconds(stop_time) - total_seconds(last.start);
            &&& r.event.project@ == last.project@
            &&& r.event.start == last.start
            &&& r.event.stop == Some(stop_time)
            &&& r.event.tags.deep_view() == last.tags.deep_view()
            &&& if dur < min_duration {
                &&& r.status == Status::Discarded
                &&& r.action == StopAction::Delete
                &&& r.event.description@ == "Event duration is lower than TT_MIN_DURATION"@
            } else {
                &&& r.status == Status::Saved
                &&& r.action == StopAction::Save
                &&& r.event.description@ == last.description@
            }
        },
{
    if last.stop.is_some() {
        return StopPlan { action: StopAction::Nothing, event: last, status: Status::Stopped };
    }
    let different_project = match tag_unless_same_project {
        Some(p) => !last.project.eq(p),
        None => false,
    };
    if different_project {
        let guard = match tag_unless_same_project {
            Some(p) => p.clone(),
            None => unreached(),
        };
        let ghost guard_view = guard@;
        let mut tagged = last;
        let mut new_tags: Vec<String> = Vec::new();
        new_tags.push(guard);
        proof {
            assert(new_tags.deep_view() =~= seq![guard_view]);
        }
        tagged.add_tags(new_tags);
        return StopPlan { action: StopAction::Save, event: tagged, status: Status::AddedTag };
    }
    let dur = stop_time.seconds_since(&last.start);
    let closed = Event {
        project: last.project,
        description: last.description,
        tags: last.tags,
        start: last.start,
        stop: Some(stop_time),
    };
    if dur < min_duration {
        let discarded = Event {
            project: closed.project,
            description: "Event duration is lower than TT_MIN_DURATION".to_owned(),
            tags: closed.tags,
            start: closed.start,
            stop: closed.stop,
        };
        StopPlan { action: StopAction::Delete, event: discarded, status: Status::Discarded }
    } else {
        StopPlan { action: StopAction::Save, event: closed, status: Status::Saved }
    }
}

/// Field-for-field agreement of two events, at the level of views.
pub open spec fn event_like(a: Event, b: Event) -> bool {
    &&& a.project@ == b.project@
    &&& a.description@ == b.description@
    &&& a.tags.deep_view() == b.tags.deep_view()
    &&& a.start == b.start
    &&& a.stop == b.stop
}

} // verus!
