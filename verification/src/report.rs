//! Report aggregation: filtering, per-event rows, adjacency-based
//! day-and-project grouping, and totals.

use vstd::prelude::*;

verus! {

use crate::datetime::{DateTime, same_date};
use crate::event::{Event, duration_secs, seq_contains_str, clone_string_vec};

/// One display row of a report.
pub struct ReportRow {
    /// Start of the (first) event the row covers; supplies the date and
    /// start columns.
    pub start: DateTime,
    pub project: String,
    /// Stop of the first covered event, when it has one.
    pub stop: Option<DateTime>,
    /// Summed duration in seconds.
    pub duration: i64,
    /// Tags of the covered events, concatenated.
    pub tags: Vec<String>,
    pub description: String,
}

/// The mathematical content of a report row.
pub struct RowModel {
    pub start: DateTime,
    pub project: Seq<char>,
    pub stop: Option<DateTime>,
    pub duration: int,
    pub tags: Seq<Seq<char>>,
    pub description: Seq<char>,
}

/// The model of an executable row.
pub open spec fn row_view(r: ReportRow) -> RowModel {
    RowModel {
        start: r.start,
        project: r.project@,
        stop: r.stop,
        duration: r.duration as int,
        tags: r.tags.deep_view(),
        description: r.description@,
    }
}

/// The models of a sequence of rows.
pub open spec fn views_of_rows(s: Seq<ReportRow>) -> Seq<RowModel> {
    Seq::new(s.len(), |k: int| row_view(s[k]))
}

/// Count of covered events and their summed duration, identical whether
/// or not grouping is enabled.
pub struct Totals {
    pub count: usize,
    pub seconds: i64,
}

/// Whether an event passes the report filter: its project equals the
/// requested one, and it carries the requested tag.
pub open spec fn spec_matches(e: Event, project: Option<Seq<char>>, tag: Option<Seq<char>>) -> bool {
    &&& match project {
        Some(p) => e.project@ == p,
        None => true,
    }
    &&& match tag {
        Some(t) => seq_contains_str(e.tags.deep_view(), t),
        None => true,
    }
}

/// The view of an optional string filter argument.
pub open spec fn opt_view(s: Option<&String>) -> Option<Seq<char>> {
    match s {
        Some(p) => Some(p@),
        None => None,
    }
}

/// Whether an event passes the report filter.
pub fn matches_filter(e: &Event, project: Option<&String>, tag: Option<&String>) -> (r: bool)
    ensures
        r == spec_matches(*e, opt_view(project), opt_view(tag)),
{
    let project_ok = match project {
        Some(p) => e.project.eq(p),
        None => true,
    };
    let tag_ok = match tag {
        Some(t) => crate::event::contains_string(&e.tags, t),
        None => true,
    };
    project_ok && tag_ok
}

/// The events that pass the filter, in their original order.
pub fn filter_events(events: Vec<Event>, project: Option<&String>, tag: Option<&String>) -> (r:
    Vec<Event>)
    ensures
        r@ == events@.filter(
            |e: Event| spec_matches(e, opt_view(project), opt_view(tag)),
        ),
{
    let ghost orig = events@;
    let ghost pred = |e: Event| spec_matches(e, opt_view(project), opt_view(tag));
    let n = events.len();
    let mut rest = events;
    let mut out: Vec<Event> = Vec::new();
    proof {
        reveal(Seq::filter);
        assert(orig.take(0) =~= Seq::<Event>::empty());
        assert(out@ =~= orig.take(0).filter(pred));
    }
    let mut i: usize = 0;
    while rest.len() > 0
        invariant
            i <= n,
            n == orig.len(),
            pred == (|e: Event| spec_matches(e, opt_view(project), opt_view(tag))),
            rest@ == orig.skip(i as int),
            out@ == orig.take(i as int).filter(pred),
        decreases rest@.len(),
    {
        let e = rest.remove(0);
        proof {
            assert(rest@ =~= orig.skip(i as int + 1));
            assert(e == orig[i as int]);
        }
        let keep = matches_filter(&e, project, tag);
        proof {
            reveal(Seq::filter);
            assert(orig.take(i as int + 1).drop_last() =~= orig.take(i as int));
            assert(orig.take(i as int + 1).last() == orig[i as int]);
            assert((|e: Event| spec_matches(e, opt_view(project), opt_view(tag)))(orig[i as int])
                == spec_matches(orig[i as int], opt_view(project), opt_view(tag)));
            assert(pred(orig[i as int]) == spec_matches(
                orig[i as int],
                opt_view(project),
                opt_view(tag),
            ));
            assert(orig.take(i as int + 1).filter(pred) == if pred(orig[i as int]) {
                orig.take(i as int).filter(pred).push(orig[i as int])
            } else {
                orig.take(i as int).filter(pred)
            });
        }
        if keep {
            out.push(e);
        }
        i = i + 1;
    }
    proof {
        assert(orig.take(orig.len() as int) =~= orig);
        assert(orig.skip(i as int).len() == 0);
    }
    out
}

/// Two adjacent events belong to the same report group: same calendar
/// day and same project.
pub open spec fn row_key_eq(a: Event, b: Event) -> bool {
    same_date(a.start, b.start) && a.project@ == b.project@
}

/// Length of the maximal initial run of group-equal adjacent events.
pub open spec fn run_len(s: Seq<Event>) -> int
    decreases s.len(),
{
    if s.len() <= 1 {
        s.len() as int
    } else if row_key_eq(s[0], s[1]) {
        1 + run_len(s.drop_first())
    } else {
        1
    }
}

/// A nonempty sequence has an initial run of at least one event.
pub proof fn lemma_run_len_bounds(s: Seq<Event>)
    ensures
        s.len() == 0 ==> run_len(s) == 0,
        s.len() > 0 ==> 1 <= run_len(s) <= s.len(),
    decreases s.len(),
{
    if s.len() > 1 {
        lemma_run_len_bounds(s.drop_first());
    }
}

/// The initial run ends exactly where adjacency first breaks.
proof fn lemma_run_len_exact(s: Seq<Event>, k: int)
    requires
        1 <= k <= s.len(),
        forall|m: int| 1 <= m < k ==> row_key_eq(s[m - 1], #[trigger] s[m]),
        k < s.len() ==> !row_key_eq(s[k - 1], s[k]),
    ensures
        run_len(s) == k,
    decreases k,
{
    if k == 1 {
    } else {
        assert(row_key_eq(s[0], s[1]));
        let d = s.drop_first();
        assert forall|m: int| 1 <= m < k - 1 implies row_key_eq(d[m - 1], #[trigger] d[m]) by {
            assert(d[m - 1] == s[m]);
            assert(d[m] == s[m + 1]);
        }
        if k - 1 < d.len() {
            assert(d[k - 2] == s[k - 1]);
            assert(d[k - 1] == s[k]);
        }
        lemma_run_len_exact(d, k - 1);
    }
}

/// Signed durations of the events, summed.
pub open spec fn sum_durations(s: Seq<Event>, now: DateTime) -> int
    decreases s.len(),
{
    if s.len() == 0 {
        0
    } else {
        sum_durations(s.drop_last(), now) + duration_secs(s.last(), now)
    }
}

/// Tags of the events, concatenated in order.
pub open spec fn flat_tags(s: Seq<Event>) -> Seq<Seq<char>>
    decreases s.len(),
{
    if s.len() == 0 {
        Seq::empty()
    } else {
        flat_tags(s.drop_last()) + s.last().tags.deep_view()
    }
}

/// The single row a run of group-equal events collapses to: the first
/// event's date, start, stop and description, the summed duration, and
/// all tags.
pub open spec fn row_of_run(run: Seq<Event>, now: DateTime) -> RowModel {
    RowModel {
        start: run[0].start,
        project: run[0].project@,
        stop: run[0].stop,
        duration: sum_durations(run, now),
        tags: flat_tags(run),
        description: run[0].description@,
    }
}

/// The day-grouped rows of an ascending event sequence: one row per
/// maximal run of adjacent events sharing calendar day and project.
pub open spec fn spec_rows(s: Seq<Event>, now: DateTime) -> Seq<RowModel>
    decreases s.len(),
{
    if s.len() == 0 {
        Seq::empty()
    } else {
        proof {
            lemma_run_len_bounds(s);
        }
        seq![row_of_run(s.take(run_len(s)), now)] + spec_rows(s.skip(run_len(s)), now)
    }
}

/// Durations of the row models, summed.
pub open spec fn sum_rows(s: Seq<RowModel>) -> int
    decreases s.len(),
{
    if s.len() == 0 {
        0
    } else {
        s[0].duration + sum_rows(s.drop_first())
    }
}

/// Splitting a sequence splits its duration sum.
proof fn lemma_sum_split(s: Seq<Event>, now: DateTime, k: int)
    requires
        0 <= k <= s.len(),
    ensures
        sum_durations(s, now) == sum_durations(s.take(k), now) + sum_durations(s.skip(k), now),
    decreases s.len(),
{
    if k == s.len() {
        assert(s.take(k) =~= s);
        assert(s.skip(k) =~= Seq::<Event>::empty());
    } else {
        let d = s.drop_last();
        lemma_sum_split(d, now, k);
        assert(d.take(k) =~= s.take(k));
        assert(d.skip(k) =~= s.skip(k).drop_last());
        assert(s.skip(k).last() == s.last());
        assert(s.skip(k).len() > 0);
    }
}

/// Day-grouping does not change the reported total duration: the rows
/// of a sequence sum to the sum of the individual event durations.
pub proof fn lemma_grouping_preserves_total(s: Seq<Event>, now: DateTime)
    ensures
        sum_rows(spec_rows(s, now)) == sum_durations(s, now),
    decreases s.len(),
{
    if s.len() == 0 {
    } else {
        lemma_run_len_bounds(s);
        let k = run_len(s);
        let rows = seq![row_of_run(s.take(k), now)] + spec_rows(s.skip(k), now);
        assert(spec_rows(s, now) == rows);
        assert(rows[0] == row_of_run(s.take(k), now));
        assert(rows.drop_first() =~= spec_rows(s.skip(k), now));
        lemma_grouping_preserves_total(s.skip(k), now);
        lemma_sum_split(s, now, k);
    }
}

/// Upper bound on the magnitude of one duration.
proof fn lemma_duration_bound(e: Event, now: DateTime)
    requires
        e.wf(),
        now.wf(),
    ensures
        -1407374883553280 < duration_secs(e, now) < 1407374883553280,
{
    crate::datetime::lemma_total_seconds_bound(e.start);
    crate::datetime::lemma_total_seconds_bound(e.spec_effective_stop(now));
}

/// Sums the durations of the events in the index range `[from, to)`.
fn sum_range_exec(events: &Vec<Event>, now: &DateTime, from: usize, to: usize) -> (r: i64)
    requires
        from <= to <= events@.len(),
        events@.len() <= 4096,
        now.wf(),
        forall|m: int| 0 <= m < events@.len() ==> (#[trigger] events@[m]).wf(),
    ensures
        r as int == sum_durations(events@.subrange(from as int, to as int), *now),
{
    let mut total: i64 = 0;
    let mut i: usize = from;
    proof {
        assert(events@.subrange(from as int, from as int) =~= Seq::<Event>::empty());
    }
    while i < to
        invariant
            from <= i <= to <= events@.len(),
            events@.len() <= 4096,
            now.wf(),
            forall|m: int| 0 <= m < events@.len() ==> (#[trigger] events@[m]).wf(),
            total as int == sum_durations(events@.subrange(from as int, i as int), *now),
            -1407374883553280 * (i as int - from as int) <= total as int <= 1407374883553280
                * (i as int - from as int),
        decreases to - i,
    {
        let d = events[i].duration_seconds(now);
        proof {
            lemma_duration_bound(events@[i as int], *now);
            assert(events@.subrange(from as int, i as int + 1).drop_last() =~= events@.subrange(
                from as int,
                i as int,
            ));
            assert(events@.subrange(from as int, i as int + 1).last() == events@[i as int]);
            assert(1407374883553280 * (i as int - from as int) + 1407374883553280
                == 1407374883553280 * (i as int + 1 - from as int));
            assert(1407374883553280 * (i as int + 1 - from as int) <= 1407374883553280 * 4096
                && -(1407374883553280 * (i as int + 1 - from as int)) >= -(1407374883553280
                * 4096)) by (nonlinear_arith)
                requires
                    0 <= i as int + 1 - from as int <= 4096,
            ;
            assert(1407374883553280 * 4096 == 5764607523034234880);
        }
        total = total + d;
        i = i + 1;
    }
    total
}

/// Whether two adjacent events share the group key.
fn row_key_eq_exec(a: &Event, b: &Event) -> (r: bool)
    ensures
        r == row_key_eq(*a, *b),
{
    a.start.same_date_as(&b.start) && a.project.eq(&b.project)
}

/// Appends copies of the source strings to the destination.
fn append_tag_clones(dst: &mut Vec<String>, src: &Vec<String>)
    ensures
        final(dst).deep_view() == old(dst).deep_view() + src.deep_view(),
{
    let copies = clone_string_vec(src);
    let srclen = src.len();
    let ghost before = dst.deep_view();
    let mut k: usize = 0;
    let mut copies = copies;
    proof {
        assert(copies@ =~= src@.skip(0));
        assert(dst.deep_view() =~= before + src.deep_view().take(0));
    }
    while copies.len() > 0
        invariant
            k <= srclen,
            srclen == src@.len(),
            copies@ == src@.skip(k as int),
            dst.deep_view() == before + src.deep_view().take(k as int),
        decreases copies@.len(),
    {
        let ghost prior = dst.deep_view();
        let s = copies.remove(0);
        proof {
            assert(copies@ =~= src@.skip(k as int + 1));
            assert(s == src@[k as int]);
            assert(src.deep_view()[k as int] == src@[k as int]@);
        }
        dst.push(s);
        proof {
            assert(dst.deep_view() =~= prior.push(src@[k as int]@));
            assert(prior.push(src@[k as int]@) =~= before + src.deep_view().take(k as int + 1));
        }
        k = k + 1;
    }
    proof {
        assert(src.deep_view().take(src@.len() as int) =~= src.deep_view());
        assert(src@.skip(k as int).len() == 0);
    }
}

/// Builds the report rows and totals from an already filtered, already
/// sorted event sequence.
///
/// The totals count every event and sum every duration, whether or not
/// grouping is enabled. Without grouping there is one row per event;
/// with grouping one row per maximal run of adjacent events sharing
/// calendar day and project (see [`spec_rows`]).
#[verifier::rlimit(60)]
pub fn aggregate(events: &Vec<Event>, group_by_day: bool, now: DateTime) -> (r: (
    Vec<ReportRow>,
    Totals,
))
    requires
        now.wf(),
        forall|i: int| 0 <= i < events@.len() ==> (#[trigger] events@[i]).wf(),
        events@.len() <= 4096,
    ensures
        r.1.count == events@.len(),
        r.1.seconds as int == sum_durations(events@, now),
        !group_by_day ==> r.0@.len() == events@.len() && forall|i: int|
            0 <= i < events@.len() ==> row_view(#[trigger] r.0@[i]) == row_of_run(
                events@.subrange(i, i + 1),
                now,
            ),
        group_by_day ==> views_of_rows(r.0@) == spec_rows(events@, now),
{
    let n = events.len();
    let total = sum_range_exec(events, &now, 0, n);
    proof {
        assert(events@.subrange(0, n as int) =~= events@);
    }
    let totals = Totals { count: n, seconds: total };

    let mut rows: Vec<ReportRow> = Vec::new();
    if !group_by_day {
        let mut i: usize = 0;
        while i < n
            invariant
                i <= n,
                n == events@.len(),
                now.wf(),
                forall|m: int| 0 <= m < events@.len() ==> (#[trigger] events@[m]).wf(),
                rows@.len() == i,
                forall|m: int|
                    0 <= m < i ==> row_view(#[trigger] rows@[m]) == row_of_run(
                        events@.subrange(m, m + 1),
                        now,
                    ),
            decreases n - i,
        {
            let e = &events[i];
            let d = e.duration_seconds(&now);
            let row = ReportRow {
                start: e.start,
                project: e.project.clone(),
                stop: e.stop,
                duration: d,
                tags: clone_string_vec(&e.tags),
                description: e.description.clone(),
            };
            proof {
                let run = events@.subrange(i as int, i as int + 1);
                assert(run.len() == 1);
                assert(run[0] == events@[i as int]);
                assert(run.drop_last() =~= Seq::<Event>::empty());
                assert(sum_durations(Seq::<Event>::empty(), now) == 0);
                assert(flat_tags(Seq::<Event>::empty()) == Seq::<Seq<char>>::empty());
                assert(run.last() == run[0]);
                assert(Seq::<Seq<char>>::empty() + run[0].tags.deep_view() =~= run[
                    0].tags.deep_view());
                assert(row_view(row) == row_of_run(run, now));
            }
            rows.push(row);
            i = i + 1;
        }
        return (rows, totals);
    }
    let mut i: usize = 0;
    proof {
        assert(events@.skip(0) =~= events@);
        assert(views_of_rows(rows@) =~= Seq::<RowModel>::empty());
        assert(Seq::<RowModel>::empty() + spec_rows(events@, now) =~= spec_rows(events@, now));
    }
    while i < n
        invariant
            i <= n,
            n == events@.len(),
            n <= 4096,
            now.wf(),
            forall|m: int| 0 <= m < events@.len() ==> (#[trigger] events@[m]).wf(),
            spec_rows(events@, now) == views_of_rows(rows@) + spec_rows(
                events@.skip(i as int),
                now,
            ),
        decreases n - i,
    {
        let ghost tail = events@.skip(i as int);
        let mut j: usize = i + 1;
        while j < n && row_key_eq_exec(&events[j - 1], &events[j])
            invariant
                i < j <= n,
                n == events@.len(),
                forall|m: int| i as int + 1 <= m < j ==> row_key_eq(events@[m - 1], #[trigger] events@[m]),
            decreases n - j,
        {
            j = j + 1;
        }
        proof {
            let k = j - i as int;
            assert forall|m: int| 1 <= m < k implies row_key_eq(tail[m - 1], #[trigger] tail[m]) by {
                assert(tail[m - 1] == events@[i as int + m - 1]);
                assert(tail[m] == events@[i as int + m]);
            }
            if k < tail.len() {
                assert(tail[k - 1] == events@[j as int - 1]);
                assert(tail[k] == events@[j as int]);
            }
            lemma_run_len_exact(tail, k);
            lemma_run_len_bounds(tail);
        }
        // Sum the run's durations and collect its tags.
        let dur = sum_range_exec(events, &now, i, j);
        let mut tg: Vec<String> = Vec::new();
        let mut m: usize = i;
        proof {
            assert(events@.subrange(i as int, i as int) =~= Seq::<Event>::empty());
            assert(tg.deep_view() =~= Seq::<Seq<char>>::empty());
        }
        while m < j
            invariant
                i <= m <= j <= n,
                n == events@.len(),
                tg.deep_view() == flat_tags(events@.subrange(i as int, m as int)),
            decreases j - m,
        {
            proof {
                assert(events@.subrange(i as int, m as int + 1).drop_last() =~= events@.subrange(
                    i as int,
                    m as int,
                ));
                assert(events@.subrange(i as int, m as int + 1).last() == events@[m as int]);
            }
            append_tag_clones(&mut tg, &events[m].tags);
            m = m + 1;
        }
        let first = &events[i];
        let row = ReportRow {
            start: first.start,
            project: first.project.clone(),
            stop: first.stop,
            duration: dur,
            tags: tg,
            description: first.description.clone(),
        };
        let ghost before_rows = views_of_rows(rows@);
        rows.push(row);
        proof {
            let k = j - i as int;
            let run = events@.subrange(i as int, j as int);
            assert(tail.take(k) =~= run);
            assert(run[0] == events@[i as int]);
            assert(row_view(row) == row_of_run(run, now));
            assert(tail.skip(k) =~= events@.skip(j as int));
            assert(spec_rows(tail, now) == seq![row_of_run(tail.take(run_len(tail)), now)]
                + spec_rows(tail.skip(run_len(tail)), now));
            assert(views_of_rows(rows@) =~= before_rows.push(row_view(row)));
            assert(before_rows.push(row_view(row)) + spec_rows(events@.skip(j as int), now)
                =~= before_rows + (seq![row_of_run(run, now)] + spec_rows(
                events@.skip(j as int),
                now,
            )));
        }
        i = j;
    }
    proof {
        assert(events@.skip(n as int).len() == 0);
        assert(views_of_rows(rows@) + Seq::<RowModel>::empty() =~= views_of_rows(rows@));
    }
    (rows, totals)
}

} // verus!
