//! The tracked unit: one start/stop interval tagged with a project,
//! a description and tags, together with its canonical file location.

use vstd::prelude::*;

verus! {

use crate::datetime::{DateTime, fmt_compact, total_seconds};
use crate::text::{digit_char, chars_of_str, string_from_chars};

/// The placeholder text shown in place of an empty description or tag
/// list.
pub open spec fn dash_text() -> Seq<char> {
    "\u{2014}"@
}

/// The placeholder string shown in place of an empty description or tag
/// list.
pub fn dash() -> (r: String)
    ensures
        r@ == dash_text(),
{
    "\u{2014}".to_owned()
}

/// A single tracked time interval. `stop` being absent means the event is
/// still open (currently tracking).
#[derive(Debug)]
pub struct Event {
    pub project: String,
    pub description: String,
    pub tags: Vec<String>,
    pub start: DateTime,
    pub stop: Option<DateTime>,
}

impl Event {
    /// Start and, when present, stop are valid date-times.
    pub open spec fn wf(self) -> bool {
        &&& self.start.wf()
        &&& match self.stop {
            Some(t) => t.wf(),
            None => true,
        }
    }

    /// The instant the event's duration runs to: its stop time, or `now`
    /// while it is still open.
    pub open spec fn spec_effective_stop(self, now: DateTime) -> DateTime {
        match self.stop {
            Some(t) => t,
            None => now,
        }
    }
}

/// Signed duration of an event in seconds, measured against `now` while
/// the event is open.
pub open spec fn duration_secs(e: Event, now: DateTime) -> int {
    total_seconds(e.spec_effective_stop(now)) - total_seconds(e.start)
}

/// Whether the sequence holds the given text.
pub open spec fn seq_contains_str(s: Seq<Seq<char>>, t: Seq<char>) -> bool {
    exists|i: int| 0 <= i < s.len() && s[i] == t
}

/// Tags of `b` appended to `a`, skipping those already present.
pub open spec fn merge_tags(a: Seq<Seq<char>>, b: Seq<Seq<char>>) -> Seq<Seq<char>>
    decreases b.len(),
{
    if b.len() == 0 {
        a
    } else {
        merge_tags(
            if seq_contains_str(a, b[0]) {
                a
            } else {
                a.push(b[0])
            },
            b.drop_first(),
        )
    }
}

/// First occurrences of each tag, in order.
pub open spec fn dedup_tags(s: Seq<Seq<char>>) -> Seq<Seq<char>> {
    merge_tags(Seq::empty(), s)
}

/// The texts joined with a comma between neighbours.
pub open spec fn join_comma(s: Seq<Seq<char>>) -> Seq<char>
    decreases s.len(),
{
    if s.len() == 0 {
        Seq::empty()
    } else if s.len() == 1 {
        s[0]
    } else {
        s[0] + seq![','] + join_comma(s.drop_first())
    }
}

/// Whether the vector holds a string with the given text.
pub fn contains_string(v: &Vec<String>, t: &String) -> (r: bool)
    ensures
        r == seq_contains_str(v.deep_view(), t@),
{
    let mut i: usize = 0;
    while i < v.len()
        invariant
            i <= v@.len(),
            forall|j: int| 0 <= j < i ==> v.deep_view()[j] != t@,
        decreases v@.len() - i,
    {
        if v[i].eq(t) {
            assert(v.deep_view()[i as int] == t@);
            return true;
        }
        i = i + 1;
    }
    false
}

/// A copy of a vector of strings with the same contents.
pub fn clone_string_vec(v: &Vec<String>) -> (r: Vec<String>)
    ensures
        r@ == v@,
        r.deep_view() == v.deep_view(),
        r@.len() == v@.len(),
{
    let r = v.clone();
    proof {
        assert forall|i: int| 0 <= i < v@.len() implies r@[i] == v@[i] by {
            assert(cloned::<String>(v[i], r[i]));
        }
        assert(r@ =~= v@);
        assert(r.deep_view() =~= v.deep_view());
    }
    r
}

/// The four year digits, the directory level records are partitioned by.
pub open spec fn year_dir(dt: DateTime) -> Seq<char> {
    seq![
        digit_char(dt.year as int / 1000),
        digit_char((dt.year as int / 100) % 10),
        digit_char((dt.year as int / 10) % 10),
        digit_char(dt.year as int % 10),
    ]
}

/// The two month digits, the second directory level.
pub open spec fn month_dir(dt: DateTime) -> Seq<char> {
    seq![digit_char(dt.month as int / 10), digit_char(dt.month as int % 10)]
}

/// The canonical file name `YYYYMMDD-HHMMSS_<project>.trc`.
pub open spec fn file_name_of(start: DateTime, project: Seq<char>) -> Seq<char> {
    fmt_compact(start) + seq!['_'] + project + ".trc"@
}

/// The canonical path `YYYY/MM/YYYYMMDD-HHMMSS_<project>.trc`, relative
/// to the store's root directory.
pub open spec fn rel_path_of(start: DateTime, project: Seq<char>) -> Seq<char> {
    year_dir(start) + seq!['/'] + month_dir(start) + seq!['/'] + file_name_of(start, project)
}

impl Event {
    /// The canonical file name of this event.
    pub fn file_name(&self) -> (r: String)
        requires
            self.wf(),
        ensures
            r@ == file_name_of(self.start, self.project@),
    {
        let mut v: Vec<char> = Vec::new();
        self.start.push_compact(&mut v);
        v.push('_');
        let mut pc = chars_of_str(self.project.as_str());
        v.append(&mut pc);
        v.push('.');
        v.push('t');
        v.push('r');
        v.push('c');
        proof {
            reveal_strlit(".trc");
            assert(v@ =~= file_name_of(self.start, self.project@));
        }
        string_from_chars(&v)
    }

    /// The canonical path of this event relative to the store root.
    pub fn rel_path(&self) -> (r: String)
        requires
            self.wf(),
        ensures
            r@ == rel_path_of(self.start, self.project@),
    {
        let mut v: Vec<char> = Vec::new();
        crate::datetime::push_four_digits(&mut v, self.start.year);
        v.push('/');
        crate::datetime::push_two_digits(&mut v, self.start.month);
        v.push('/');
        let mut name = chars_of_str(self.file_name().as_str());
        v.append(&mut name);
        proof {
            assert(v@ =~= rel_path_of(self.start, self.project@));
        }
        string_from_chars(&v)
    }

    /// Appends the given tags, skipping any already present, in order.
    pub fn add_tags(&mut self, new_tags: Vec<String>)
        ensures
            final(self).tags.deep_view() == merge_tags(
                old(self).tags.deep_view(),
                new_tags.deep_view(),
            ),
            final(self).project == old(self).project,
            final(self).description == old(self).description,
            final(self).start == old(self).start,
            final(self).stop == old(self).stop,
    {
        let ghost orig = self.tags.deep_view();
        let ghost incoming = new_tags.deep_view();
        proof {
            assert(incoming.skip(0) =~= incoming);
        }
        let mut i: usize = 0;
        while i < new_tags.len()
            invariant
                i <= incoming.len(),
                incoming == new_tags.deep_view(),
                merge_tags(orig, incoming) == merge_tags(
                    self.tags.deep_view(),
                    incoming.skip(i as int),
                ),
                self.project == old(self).project,
                self.description == old(self).description,
                self.start == old(self).start,
                self.stop == old(self).stop,
            decreases incoming.len() - i,
        {
            let ghost before = self.tags.deep_view();
            let tag = new_tags[i].clone();
            proof {
                assert(cloned::<String>(new_tags[i as int], tag));
                assert(tag@ == incoming[i as int]);
            }
            if !contains_string(&self.tags, &tag) {
                self.tags.push(tag);
                proof {
                    assert(self.tags.deep_view() =~= before.push(incoming[i as int]));
                }
            }
            proof {
                assert(incoming.skip(i as int).drop_first() =~= incoming.skip(i as int + 1));
                assert(incoming.skip(i as int)[0] == incoming[i as int]);
            }
            i = i + 1;
        }
        proof {
            assert(incoming.skip(i as int) =~= Seq::<Seq<char>>::empty());
        }
    }

    /// The tag list for display: first occurrences joined with commas, or
    /// a dash when there are no tags.
    pub fn tags_display(&self) -> (r: String)
        ensures
            self.tags@.len() == 0 ==> r@ == dash_text(),
            self.tags@.len() > 0 ==> r@ == join_comma(dedup_tags(self.tags.deep_view())),
    {
        if self.tags.len() == 0 {
            return dash();
        }
        let mut uniq: Vec<String> = Vec::new();
        let ghost all = self.tags.deep_view();
        proof {
            assert(all.take(0) =~= Seq::<Seq<char>>::empty());
            assert(merge_tags(Seq::<Seq<char>>::empty(), Seq::<Seq<char>>::empty())
                =~= Seq::<Seq<char>>::empty());
            assert(uniq.deep_view() =~= Seq::<Seq<char>>::empty());
        }
        let mut i: usize = 0;
        while i < self.tags.len()
            invariant
                i <= all.len(),
                all == self.tags.deep_view(),
                uniq.deep_view() == merge_tags(Seq::<Seq<char>>::empty(), all.take(i as int)),
                i > 0 ==> uniq@.len() >= 1,
            decreases all.len() - i,
        {
            let ghost before = uniq.deep_view();
            let tag = self.tags[i].clone();
            proof {
                assert(cloned::<String>(self.tags[i as int], tag));
            }
            if !contains_string(&uniq, &tag) {
                uniq.push(tag);
                proof {
                    assert(uniq.deep_view() =~= before.push(all[i as int]));
                }
            }
            proof {
                lemma_merge_tags_step(Seq::<Seq<char>>::empty(), all, i as int, before);
            }
            i = i + 1;
        }
        proof {
            assert(all.take(all.len() as int) =~= all);
        }
        let mut out: Vec<char> = Vec::new();
        let mut j: usize = 0;
        let ghost u = uniq.deep_view();
        let n = uniq.len();
        while j < n
            invariant
                j <= n,
                n == u.len(),
                u == uniq.deep_view(),
                n == uniq@.len(),
                u.len() >= 1,
                j == 0 ==> out@ == Seq::<char>::empty(),
                0 < j < n ==> out@ == join_comma(u.take(j as int)) + seq![','],
                j == n ==> out@ == join_comma(u),
            decreases n - j,
        {
            let ghost prefix = out@;
            let mut tc = chars_of_str(uniq[j].as_str());
            out.append(&mut tc);
            proof {
                lemma_join_take_step(u, j as int);
                if j == 0 {
                    assert(out@ =~= join_comma(u.take(1)));
                }
            }
            if j + 1 < n {
                out.push(',');
            }
            proof {
                if j + 1 == n {
                    assert(u.take(n as int) =~= u);
                }
            }
            j = j + 1;
        }
        string_from_chars(&out)
    }

    /// The description for display: a dash when it is empty.
    pub fn description_display(&self) -> (r: String)
        ensures
            self.description@.len() == 0 ==> r@ == dash_text(),
            self.description@.len() > 0 ==> r@ == self.description@,
    {
        if self.description.as_str().is_empty() {
            dash()
        } else {
            self.description.clone()
        }
    }

    /// Signed duration in seconds, measured against `now` while open.
    pub fn duration_seconds(&self, now: &DateTime) -> (r: i64)
        requires
            self.wf(),
            now.wf(),
        ensures
            r as int == duration_secs(*self, *now),
    {
        match &self.stop {
            Some(t) => t.seconds_since(&self.start),
            None => now.seconds_since(&self.start),
        }
    }

    /// A copy of this event with the same fields.
    pub fn duplicate(&self) -> (r: Event)
        ensures
            r.project == self.project,
            r.description == self.description,
            r.tags.deep_view() == self.tags.deep_view(),
            r.start == self.start,
            r.stop == self.stop,
    {
        Event {
            project: self.project.clone(),
            description: self.description.clone(),
            tags: clone_string_vec(&self.tags),
            start: self.start,
            stop: self.stop,
        }
    }
}

proof fn lemma_merge_tags_step(acc: Seq<Seq<char>>, all: Seq<Seq<char>>, i: int, before: Seq<
    Seq<char>,
>)
    requires
        0 <= i < all.len(),
        before == merge_tags(acc, all.take(i)),
    ensures
        merge_tags(acc, all.take(i + 1)) == if seq_contains_str(before, all[i]) {
            before
        } else {
            before.push(all[i])
        },
    decreases i,
{
    lemma_merge_tags_snoc(acc, all.take(i), all[i]);
    assert(all.take(i).push(all[i]) =~= all.take(i + 1));
}

proof fn lemma_merge_tags_snoc(acc: Seq<Seq<char>>, s: Seq<Seq<char>>, x: Seq<char>)
    ensures
        merge_tags(acc, s.push(x)) == if seq_contains_str(merge_tags(acc, s), x) {
            merge_tags(acc, s)
        } else {
            merge_tags(acc, s).push(x)
        },
    decreases s.len(),
{
    let p = s.push(x);
    if s.len() == 0 {
        assert(p[0] == x);
        assert(p.drop_first() =~= Seq::<Seq<char>>::empty());
        let acc2 = if seq_contains_str(acc, x) {
            acc
        } else {
            acc.push(x)
        };
        assert(merge_tags(acc, p) == merge_tags(acc2, p.drop_first()));
        assert(merge_tags(acc2, Seq::<Seq<char>>::empty()) == acc2);
        assert(merge_tags(acc, s) == acc);
    } else {
        let acc2 = if seq_contains_str(acc, s[0]) {
            acc
        } else {
            acc.push(s[0])
        };
        assert(p[0] == s[0]);
        assert(p.drop_first() =~= s.drop_first().push(x));
        assert(merge_tags(acc, p) == merge_tags(acc2, p.drop_first()));
        assert(merge_tags(acc, s) == merge_tags(acc2, s.drop_first()));
        lemma_merge_tags_snoc(acc2, s.drop_first(), x);
    }
}

proof fn lemma_join_take_step(u: Seq<Seq<char>>, j: int)
    requires
        0 <= j < u.len(),
    ensures
        j == 0 ==> join_comma(u.take(1)) == u[0],
        j > 0 ==> join_comma(u.take(j + 1)) == join_comma(u.take(j)) + seq![','] + u[j],
{
    lemma_join_snoc(u.take(j), u[j]);
    assert(u.take(j).push(u[j]) =~= u.take(j + 1));
    if j == 0 {
        assert(u.take(j).len() == 0);
    }
}

proof fn lemma_join_snoc(s: Seq<Seq<char>>, x: Seq<char>)
    ensures
        s.len() == 0 ==> join_comma(s.push(x)) == x,
        s.len() > 0 ==> join_comma(s.push(x)) == join_comma(s) + seq![','] + x,
    decreases s.len(),
{
    let p = s.push(x);
    if s.len() == 0 {
        assert(p.len() == 1);
        assert(p[0] == x);
    } else {
        assert(p[0] == s[0]);
        assert(p.drop_first() =~= s.drop_first().push(x));
        lemma_join_snoc(s.drop_first(), x);
        if s.len() == 1 {
            assert(join_comma(s) == s[0]);
            assert(join_comma(p) == p[0] + seq![','] + join_comma(p.drop_first()));
            assert(join_comma(p.drop_first()) == x);
        } else {
            assert(join_comma(p) == p[0] + seq![','] + join_comma(p.drop_first()));
            assert(join_comma(p.drop_first()) == join_comma(s.drop_first()) + seq![','] + x);
            assert(join_comma(s) == s[0] + seq![','] + join_comma(s.drop_first()));
            assert(s[0] + seq![','] + (join_comma(s.drop_first()) + seq![','] + x) =~= (s[0]
                + seq![','] + join_comma(s.drop_first())) + seq![','] + x);
        }
    }
}

} // verus!
