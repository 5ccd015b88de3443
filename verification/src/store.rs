//! The pure logic of the file-backed store: which names are record
//! files, which fall in a date range, the descending scan order, the
//! ascending sort of loaded events, and the law that file-name order is
//! chronological order.

use vstd::prelude::*;

verus! {

use crate::datetime::{DateTime, total_seconds, lex_le, fmt_compact};
use crate::event::Event;
use crate::text::{is_digit, digit_val, digit_char, chars_of_str};

/// Lexicographic order on character sequences by code point, the order
/// directory entries are scanned in.
pub open spec fn str_le(a: Seq<char>, b: Seq<char>) -> bool
    decreases a.len(),
{
    if a.len() == 0 {
        true
    } else if b.len() == 0 {
        false
    } else if a[0] == b[0] {
        str_le(a.drop_first(), b.drop_first())
    } else {
        (a[0] as int) < (b[0] as int)
    }
}

/// Lexicographic order is total.
pub proof fn lemma_str_le_total(a: Seq<char>, b: Seq<char>)
    ensures
        str_le(a, b) || str_le(b, a),
        str_le(a, b) && str_le(b, a) ==> a == b,
    decreases a.len(),
{
    if a.len() > 0 && b.len() > 0 && a[0] == b[0] {
        lemma_str_le_total(a.drop_first(), b.drop_first());
        if str_le(a, b) && str_le(b, a) {
            assert(a =~= seq![a[0]] + a.drop_first());
            assert(b =~= seq![b[0]] + b.drop_first());
        }
    }
}

/// Lexicographic order is transitive.
pub proof fn lemma_str_le_trans(a: Seq<char>, b: Seq<char>, c: Seq<char>)
    requires
        str_le(a, b),
        str_le(b, c),
    ensures
        str_le(a, c),
    decreases a.len(),
{
    if a.len() > 0 && b.len() > 0 && c.len() > 0 {
        if a[0] == b[0] && b[0] == c[0] {
            lemma_str_le_trans(a.drop_first(), b.drop_first(), c.drop_first());
        }
    }
}

/// Whether the strings are in ascending lexicographic order by `str_le`.
fn str_le_exec(a: &String, b: &String) -> (r: bool)
    ensures
        r == str_le(a@, b@),
{
    let ac = chars_of_str(a.as_str());
    let bc = chars_of_str(b.as_str());
    let mut i: usize = 0;
    let an = ac.len();
    let bn = bc.len();
    proof {
        assert(a@.skip(0) =~= a@);
        assert(b@.skip(0) =~= b@);
    }
    while i < an && i < bn
        invariant
            i <= an,
            i <= bn,
            an == ac@.len(),
            bn == bc@.len(),
            ac@ == a@,
            bc@ == b@,
            forall|j: int| 0 <= j < i ==> a@[j] == b@[j],
            str_le(a@, b@) == str_le(a@.skip(i as int), b@.skip(i as int)),
            str_le(b@, a@) == str_le(b@.skip(i as int), a@.skip(i as int)),
        decreases an - i,
    {
        let x = ac[i];
        let y = bc[i];
        proof {
            assert(a@.skip(i as int)[0] == a@[i as int]);
            assert(b@.skip(i as int)[0] == b@[i as int]);
            assert(a@.skip(i as int).drop_first() =~= a@.skip(i as int + 1));
            assert(b@.skip(i as int).drop_first() =~= b@.skip(i as int + 1));
        }
        if x != y {
            return x < y;
        }
        i = i + 1;
    }
    proof {
        if i == an {
            assert(a@.skip(i as int).len() == 0);
        } else {
            assert(b@.skip(i as int).len() == 0);
            assert(a@.skip(i as int).len() > 0);
        }
    }
    an <= bn
}

/// Sorts strings in descending lexicographic order: the order in which
/// year directories, month directories and record files are visited to
/// find the most recent event.
pub fn sort_names_desc(names: Vec<String>) -> (r: Vec<String>)
    ensures
        r@.len() == names@.len(),
        r@.to_multiset() == names@.to_multiset(),
        forall|x: int, y: int| 0 <= x < y < r@.len() ==> str_le(#[trigger] r@[y]@, #[trigger] r@[x]@),
{
    broadcast use vstd::seq_lib::group_to_multiset_ensures;

    let ghost orig = names@;
    let n = names.len();
    let mut rest = names;
    let mut out: Vec<String> = Vec::new();
    proof {
        assert(out@.to_multiset() =~= Seq::<String>::empty().to_multiset());
        assert(orig.take(0) =~= Seq::<String>::empty());
        assert(orig.take(0).to_multiset() =~= Seq::<String>::empty().to_multiset());
    }
    let mut i: usize = 0;
    while rest.len() > 0
        invariant
            i <= n,
            n == orig.len(),
            rest@ == orig.skip(i as int),
            out@.len() == i,
            out@.to_multiset() == orig.take(i as int).to_multiset(),
            forall|x: int, y: int|
                0 <= x < y < out@.len() ==> str_le(#[trigger] out@[y]@, #[trigger] out@[x]@),
        decreases rest@.len(),
    {
        let e = rest.remove(0);
        proof {
            assert(rest@ =~= orig.skip(i as int + 1));
            assert(e == orig[i as int]);
            assert(orig.take(i as int + 1).drop_last() =~= orig.take(i as int));
            assert(orig.take(i as int + 1).last() == orig[i as int]);
        }
        // Find the first position whose entry is lexicographically below
        // `e`; inserting there keeps the descending order and is stable.
        let mut pos: usize = 0;
        while pos < out.len() && str_le_exec(&e, &out[pos])
            invariant
                pos <= out@.len(),
                forall|j: int| 0 <= j < pos ==> str_le(e@, #[trigger] out@[j]@),
            decreases out@.len() - pos,
        {
            pos = pos + 1;
        }
        let ghost before = out@;
        let ghost p = pos as int;
        out.insert(pos, e);
        proof {
            broadcast use vstd::seq_lib::group_to_multiset_ensures;

            assert(out@ =~= before.insert(p, e));
            assert(out@ =~= before.take(p).push(e) + before.skip(p));
            assert(before.take(p).push(e).to_multiset() =~= before.take(p).to_multiset().insert(
                e,
            ));
            vstd::seq_lib::lemma_multiset_commutative(before.take(p).push(e), before.skip(p));
            vstd::seq_lib::lemma_multiset_commutative(before.take(p), before.skip(p));
            assert(before.take(p) + before.skip(p) =~= before);
            assert(out@.to_multiset() =~= before.to_multiset().insert(e));
            assert(orig.take(i as int + 1) =~= orig.take(i as int).push(e));
            assert(orig.take(i as int + 1).to_multiset() =~= orig.take(
                i as int,
            ).to_multiset().insert(e));
            // Order: entries before `pos` are not below `e`, so they are
            // at or above it; entries from `pos` on are below it.
            assert forall|x: int, y: int|
                0 <= x < y < out@.len() implies str_le(#[trigger] out@[y]@, #[trigger] out@[x]@) by {
                if y < p {
                } else if x > p {
                } else if x == p && y > p {
                    assert(out@[y]@ == before[y - 1]@);
                    assert(!str_le(e@, before[p]@));
                    assert(str_le(before[p]@, e@)) by {
                        lemma_str_le_total(e@, before[p]@);
                    }
                    if y - 1 > p {
                        lemma_str_le_trans(before[y - 1]@, before[p]@, e@);
                    }
                } else if y == p && x < p {
                    assert(out@[x]@ == before[x]@);
                    assert(str_le(e@, before[x]@));
                } else {
                    // x < p < y: both sides stay as in `before`, shifted.
                    assert(out@[x]@ == before[x]@);
                    assert(out@[y]@ == before[y - 1]@);
                }
            }
        }
        i = i + 1;
    }
    proof {
        assert(orig.take(orig.len() as int) =~= orig);
        assert(orig.skip(i as int).len() == 0);
    }
    out
}

/// Whether a directory entry name is considered a record file: it ends
/// in `.trc` or `.json` with a nonempty stem.
pub open spec fn is_record_name(name: Seq<char>) -> bool {
    ||| (name.len() >= 5 && name.skip(name.len() - 4) == ".trc"@)
    ||| (name.len() >= 6 && name.skip(name.len() - 5) == ".json"@)
}

/// Whether a file name has one of the record extensions.
pub fn is_record_file(name: &String) -> (r: bool)
    ensures
        r == is_record_name(name@),
{
    let v = chars_of_str(name.as_str());
    let n = v.len();
    proof {
        reveal_strlit(".trc");
        reveal_strlit(".json");
    }
    let trc = if n >= 5 {
        let r = v[n - 4] == '.' && v[n - 3] == 't' && v[n - 2] == 'r' && v[n - 1] == 'c';
        proof {
            if r {
                assert(name@.skip(n as int - 4) =~= ".trc"@);
            } else {
                assert(name@.skip(n as int - 4) != ".trc"@) by {
                    if name@.skip(n as int - 4) == ".trc"@ {
                        assert(name@.skip(n as int - 4)[0] == '.');
                        assert(name@.skip(n as int - 4)[1] == 't');
                        assert(name@.skip(n as int - 4)[2] == 'r');
                        assert(name@.skip(n as int - 4)[3] == 'c');
                    }
                }
            }
        }
        r
    } else {
        false
    };
    let json = if n >= 6 {
        let r = v[n - 5] == '.' && v[n - 4] == 'j' && v[n - 3] == 's' && v[n - 2] == 'o' && v[n
            - 1] == 'n';
        proof {
            if r {
                assert(name@.skip(n as int - 5) =~= ".json"@);
            } else {
                assert(name@.skip(n as int - 5) != ".json"@) by {
                    if name@.skip(n as int - 5) == ".json"@ {
                        assert(name@.skip(n as int - 5)[0] == '.');
                        assert(name@.skip(n as int - 5)[1] == 'j');
                        assert(name@.skip(n as int - 5)[2] == 's');
                        assert(name@.skip(n as int - 5)[3] == 'o');
                        assert(name@.skip(n as int - 5)[4] == 'n');
                    }
                }
            }
        }
        r
    } else {
        false
    };
    trc || json
}

/// The calendar date a record file name encodes in its first eight
/// characters, when they are digits forming a valid date.
pub open spec fn name_date(name: Seq<char>) -> Option<(u16, u8, u8)> {
    if name.len() >= 8 && (forall|j: int| 0 <= j < 8 ==> is_digit(#[trigger] name[j])) {
        let y = digit_val(name[0]) * 1000 + digit_val(name[1]) * 100 + digit_val(name[2]) * 10
            + digit_val(name[3]);
        let m = digit_val(name[4]) * 10 + digit_val(name[5]);
        let d = digit_val(name[6]) * 10 + digit_val(name[7]);
        if 1 <= m <= 12 && 1 <= d <= crate::datetime::days_in_month(y, m) {
            Some((y as u16, m as u8, d as u8))
        } else {
            None
        }
    } else {
        None
    }
}

/// Date-only comparison of a `(year, month, day)` triple against an
/// instant's date.
pub open spec fn triple_le_date(t: (u16, u8, u8), dt: DateTime) -> bool {
    if t.0 != dt.year {
        t.0 < dt.year
    } else if t.1 != dt.month {
        t.1 < dt.month
    } else {
        t.2 <= dt.day
    }
}

/// Date-only comparison of an instant's date against a triple.
pub open spec fn date_le_triple(dt: DateTime, t: (u16, u8, u8)) -> bool {
    if dt.year != t.0 {
        dt.year < t.0
    } else if dt.month != t.1 {
        dt.month < t.1
    } else {
        dt.day <= t.2
    }
}

/// Whether a record file's name-encoded date lies in the inclusive
/// range between the dates of `since` and `until`. A name without a
/// valid encoded date never qualifies.
pub open spec fn name_in_range(name: Seq<char>, since: DateTime, until: DateTime) -> bool {
    match name_date(name) {
        Some(t) => date_le_triple(since, t) && triple_le_date(t, until),
        None => false,
    }
}

/// Whether a file name's encoded date falls within `[since, until]`,
/// comparing calendar dates only.
pub fn name_date_in_range(name: &String, since: &DateTime, until: &DateTime) -> (r: bool)
    ensures
        r == name_in_range(name@, *since, *until),
{
    let v = chars_of_str(name.as_str());
    if v.len() < 8 {
        return false;
    }
    let parsed = match (
        crate::text::digit_of(v[0]),
        crate::text::digit_of(v[1]),
        crate::text::digit_of(v[2]),
        crate::text::digit_of(v[3]),
        crate::text::digit_of(v[4]),
        crate::text::digit_of(v[5]),
        crate::text::digit_of(v[6]),
        crate::text::digit_of(v[7]),
    ) {
        (Some(a), Some(b), Some(c), Some(dd), Some(e), Some(f), Some(g), Some(h)) => Some(
            (
                (a as u16) * 1000 + (b as u16) * 100 + (c as u16) * 10 + (dd as u16),
                e * 10 + f,
                g * 10 + h,
            ),
        ),
        _ => None,
    };
    let (y, m, d) = match parsed {
        Some(t) => t,
        None => {
            return false;
        },
    };
    if !(1 <= m && m <= 12 && 1 <= d && d <= crate::datetime::days_in_month_exec(y, m)) {
        return false;
    }
    let since_le = if since.year != y {
        since.year < y
    } else if since.month != m {
        since.month < m
    } else {
        since.day <= d
    };
    let le_until = if y != until.year {
        y < until.year
    } else if m != until.month {
        m < until.month
    } else {
        d <= until.day
    };
    since_le && le_until
}

/// Sorts events ascending by start time; ties keep no promised order,
/// but the result is a permutation of the input.
pub fn sort_events_by_start(events: Vec<Event>) -> (r: Vec<Event>)
    ensures
        r@.len() == events@.len(),
        r@.to_multiset() == events@.to_multiset(),
        forall|x: int, y: int|
            0 <= x < y < r@.len() ==> lex_le((#[trigger] r@[x]).start, (#[trigger] r@[y]).start),
{
    broadcast use vstd::seq_lib::group_to_multiset_ensures;

    let ghost orig = events@;
    let n = events.len();
    let mut rest = events;
    let mut out: Vec<Event> = Vec::new();
    proof {
        assert(out@.to_multiset() =~= Seq::<Event>::empty().to_multiset());
        assert(orig.take(0) =~= Seq::<Event>::empty());
        assert(orig.take(0).to_multiset() =~= Seq::<Event>::empty().to_multiset());
    }
    let mut i: usize = 0;
    while rest.len() > 0
        invariant
            i <= n,
            n == orig.len(),
            rest@ == orig.skip(i as int),
            out@.len() == i,
            out@.to_multiset() == orig.take(i as int).to_multiset(),
            forall|x: int, y: int|
                0 <= x < y < out@.len() ==> lex_le(
                    (#[trigger] out@[x]).start,
                    (#[trigger] out@[y]).start,
                ),
        decreases rest@.len(),
    {
        let e = rest.remove(0);
        proof {
            assert(rest@ =~= orig.skip(i as int + 1));
            assert(e == orig[i as int]);
            assert(orig.take(i as int + 1).drop_last() =~= orig.take(i as int));
            assert(orig.take(i as int + 1).last() == orig[i as int]);
        }
        // First position whose entry starts strictly after `e`:
        // inserting there keeps the ascending order and is stable.
        let mut pos: usize = 0;
        while pos < out.len() && out[pos].start.le(&e.start)
            invariant
                pos <= out@.len(),
                forall|j: int| 0 <= j < pos ==> lex_le((#[trigger] out@[j]).start, e.start),
            decreases out@.len() - pos,
        {
            pos = pos + 1;
        }
        let ghost before = out@;
        let ghost p = pos as int;
        let ghost ev = e;
        out.insert(pos, e);
        proof {
            broadcast use vstd::seq_lib::group_to_multiset_ensures;

            assert(out@ =~= before.insert(p, ev));
            assert(out@ =~= before.take(p).push(ev) + before.skip(p));
            assert(before.take(p).push(ev).to_multiset() =~= before.take(p).to_multiset().insert(
                ev,
            ));
            vstd::seq_lib::lemma_multiset_commutative(before.take(p).push(ev), before.skip(p));
            vstd::seq_lib::lemma_multiset_commutative(before.take(p), before.skip(p));
            assert(before.take(p) + before.skip(p) =~= before);
            assert(out@.to_multiset() =~= before.to_multiset().insert(ev));
            assert(orig.take(i as int + 1) =~= orig.take(i as int).push(ev));
            assert(orig.take(i as int + 1).to_multiset() =~= orig.take(
                i as int,
            ).to_multiset().insert(ev));
            assert forall|x: int, y: int|
                0 <= x < y < out@.len() implies lex_le(
                (#[trigger] out@[x]).start,
                (#[trigger] out@[y]).start,
            ) by {
                if y < p {
                } else if x > p {
                } else if x == p && y > p {
                    assert(out@[y] == before[y - 1]);
                    if p < before.len() {
                        assert(!lex_le(before[p].start, ev.start));
                    }
                } else if y == p && x < p {
                    assert(out@[x] == before[x]);
                } else {
                    assert(out@[x] == before[x]);
                    assert(out@[y] == before[y - 1]);
                }
            }
        }
        i = i + 1;
    }
    proof {
        assert(orig.take(orig.len() as int) =~= orig);
        assert(orig.skip(i as int).len() == 0);
    }
    out
}

/// Zero-padded fixed-width decimal renderings compare lexicographically
/// exactly as their values compare.
proof fn lemma_digit_block_le(a: Seq<char>, b: Seq<char>, va: int, vb: int, w: int)
    requires
        a.len() == w,
        b.len() == w,
        w >= 0,
        forall|j: int| 0 <= j < w ==> is_digit(#[trigger] a[j]),
        forall|j: int| 0 <= j < w ==> is_digit(#[trigger] b[j]),
        va == digits_value(a),
        vb == digits_value(b),
    ensures
        str_le(a, b) == (va <= vb || a == b),
        a == b <==> va == vb,
    decreases w,
{
    if w == 0 {
        assert(a =~= b);
    } else {
        let a1 = a.drop_first();
        let b1 = b.drop_first();
        assert forall|j: int| 0 <= j < a1.len() implies is_digit(#[trigger] a1[j]) by {
            assert(is_digit(a[j + 1]));
            assert(a1[j] == a[j + 1]);
        }
        assert forall|j: int| 0 <= j < b1.len() implies is_digit(#[trigger] b1[j]) by {
            assert(is_digit(b[j + 1]));
            assert(b1[j] == b[j + 1]);
        }
        lemma_digits_value_bounds(a1);
        lemma_digits_value_bounds(b1);
        lemma_digit_block_le(a1, b1, digits_value(a1), digits_value(b1), w - 1);
        lemma_pow10_positive(w - 1);
        if a[0] == b[0] {
            if a1 == b1 {
                assert forall|j: int| 0 <= j < a.len() implies a[j] == b[j] by {
                    if j > 0 {
                        assert(a1[j - 1] == a[j]);
                        assert(b1[j - 1] == b[j]);
                    }
                }
                assert(a =~= b);
            }
            assert((a == b) <==> (a1 == b1)) by {
                if a == b {
                    assert(a.drop_first() =~= b.drop_first());
                }
            }
        } else {
            assert(a != b) by {
                if a == b {
                    assert(a[0] == b[0]);
                }
            }
            // The leading digit dominates: the remaining blocks differ
            // by less than one step of the leading place value.
            let pw = pow10(w - 1);
            assert(va == digit_val(a[0]) * pw + digits_value(a1));
            assert(vb == digit_val(b[0]) * pw + digits_value(b1));
            if (a[0] as int) < (b[0] as int) {
                assert(digit_val(a[0]) + 1 <= digit_val(b[0]));
                assert((digit_val(a[0]) + 1) * pw <= digit_val(b[0]) * pw) by (nonlinear_arith)
                    requires
                        digit_val(a[0]) + 1 <= digit_val(b[0]),
                        pw > 0,
                ;
                assert((digit_val(a[0]) + 1) * pw == digit_val(a[0]) * pw + pw) by (nonlinear_arith);
                assert(va < vb);
            } else {
                assert(digit_val(b[0]) + 1 <= digit_val(a[0]));
                assert((digit_val(b[0]) + 1) * pw <= digit_val(a[0]) * pw) by (nonlinear_arith)
                    requires
                        digit_val(b[0]) + 1 <= digit_val(a[0]),
                        pw > 0,
                ;
                assert((digit_val(b[0]) + 1) * pw == digit_val(b[0]) * pw + pw) by (nonlinear_arith);
                assert(vb < va);
            }
        }
    }
}

/// Comparing concatenations of equal-length heads reduces to the heads,
/// or to the tails when the heads agree.
proof fn lemma_str_le_concat(a1: Seq<char>, a2: Seq<char>, b1: Seq<char>, b2: Seq<char>)
    requires
        a1.len() == b1.len(),
    ensures
        str_le(a1 + a2, b1 + b2) == if a1 == b1 {
            str_le(a2, b2)
        } else {
            str_le(a1, b1)
        },
    decreases a1.len(),
{
    if a1.len() == 0 {
        assert(a1 =~= b1);
        assert(a1 + a2 =~= a2);
        assert(b1 + b2 =~= b2);
    } else {
        let x = a1 + a2;
        let y = b1 + b2;
        assert(x[0] == a1[0]);
        assert(y[0] == b1[0]);
        assert(x.len() > 0 && y.len() > 0);
        if a1[0] == b1[0] {
            assert(x.drop_first() =~= a1.drop_first() + a2);
            assert(y.drop_first() =~= b1.drop_first() + b2);
            lemma_str_le_concat(a1.drop_first(), a2, b1.drop_first(), b2);
            assert((a1 == b1) <==> (a1.drop_first() == b1.drop_first())) by {
                if a1.drop_first() == b1.drop_first() {
                    assert forall|q: int| 0 <= q < a1.len() implies a1[q] == b1[q] by {
                        if q > 0 {
                            assert(a1.drop_first()[q - 1] == a1[q]);
                            assert(b1.drop_first()[q - 1] == b1[q]);
                        }
                    }
                    assert(a1 =~= b1);
                }
                if a1 == b1 {
                    assert(a1.drop_first() =~= b1.drop_first());
                }
            }
        } else {
            assert(a1 != b1) by {
                if a1 == b1 {
                    assert(a1[0] == b1[0]);
                }
            }
        }
    }
}

/// The value of a two-digit block.
proof fn lemma_digits_value2(a: int, b: int)
    requires
        0 <= a < 10,
        0 <= b < 10,
    ensures
        digits_value(seq![digit_char(a), digit_char(b)]) == a * 10 + b,
{
    crate::text::lemma_digit_char_val(a);
    crate::text::lemma_digit_char_val(b);
    let s = seq![digit_char(a), digit_char(b)];
    assert(s.len() == 2);
    assert(s[0] == digit_char(a));
    assert(s.drop_first() =~= seq![digit_char(b)]);
    assert(seq![digit_char(b)].drop_first() =~= Seq::<char>::empty());
    assert(digits_value(Seq::<char>::empty()) == 0);
    assert(pow10(0) == 1);
    assert(pow10(1) == 10);
    assert(digits_value(seq![digit_char(b)]) == digit_val(digit_char(b)) * pow10(0)
        + digits_value(seq![digit_char(b)].drop_first()));
    assert(digits_value(seq![digit_char(b)]) == b);
    assert(digits_value(s) == digit_val(s[0]) * pow10(1) + digits_value(s.drop_first()));
}

/// Splitting a digit block splits its value by place.
proof fn lemma_digits_value_concat(s: Seq<char>, t: Seq<char>)
    ensures
        digits_value(s + t) == digits_value(s) * pow10(t.len() as int) + digits_value(t),
    decreases s.len(),
{
    if s.len() == 0 {
        assert(s + t =~= t);
    } else {
        let u = s + t;
        assert(u[0] == s[0]);
        assert(u.len() > 0);
        assert(u.drop_first() =~= s.drop_first() + t);
        lemma_digits_value_concat(s.drop_first(), t);
        lemma_pow10_add(s.len() - 1, t.len() as int);
        let dv = digit_val(s[0]);
        let p1 = pow10(s.len() - 1);
        let p2 = pow10(t.len() as int);
        assert(dv * (p1 * p2) == (dv * p1) * p2) by (nonlinear_arith);
        assert((digit_val(s[0]) * pow10(s.len() - 1) + digits_value(s.drop_first())) * p2 == (
        digit_val(s[0]) * pow10(s.len() - 1)) * p2 + digits_value(s.drop_first()) * p2)
            by (nonlinear_arith);
    }
}

/// Powers of ten multiply by adding exponents.
proof fn lemma_pow10_add(a: int, b: int)
    requires
        a >= 0,
        b >= 0,
    ensures
        pow10(a + b) == pow10(a) * pow10(b),
    decreases a,
{
    if a == 0 {
    } else {
        lemma_pow10_add(a - 1, b);
        assert(10 * (pow10(a - 1) * pow10(b)) == (10 * pow10(a - 1)) * pow10(b))
            by (nonlinear_arith);
    }
}

/// The eight date digits of a compact file name.
spec fn ymd_block(dt: DateTime) -> Seq<char> {
    seq![
        digit_char(dt.year as int / 1000),
        digit_char((dt.year as int / 100) % 10),
        digit_char((dt.year as int / 10) % 10),
        digit_char(dt.year as int % 10),
        digit_char(dt.month as int / 10),
        digit_char(dt.month as int % 10),
        digit_char(dt.day as int / 10),
        digit_char(dt.day as int % 10),
    ]
}

/// The six time digits of a compact file name.
spec fn hms_block(dt: DateTime) -> Seq<char> {
    seq![
        digit_char(dt.hour as int / 10),
        digit_char(dt.hour as int % 10),
        digit_char(dt.minute as int / 10),
        digit_char(dt.minute as int % 10),
        digit_char(dt.second as int / 10),
        digit_char(dt.second as int % 10),
    ]
}

/// The number the date digits denote.
spec fn ymd_value(dt: DateTime) -> int {
    dt.year as int * 10000 + dt.month as int * 100 + dt.day as int
}

/// The number the time digits denote.
spec fn hms_value(dt: DateTime) -> int {
    dt.hour as int * 10000 + dt.minute as int * 100 + dt.second as int
}

/// The compact name's blocks denote the date and time values, and the
/// blocks are all digits.
proof fn lemma_compact_blocks(dt: DateTime)
    requires
        dt.wf(),
    ensures
        fmt_compact(dt) =~= ymd_block(dt) + seq!['-'] + hms_block(dt),
        digits_value(ymd_block(dt)) == ymd_value(dt),
        digits_value(hms_block(dt)) == hms_value(dt),
        forall|j: int| 0 <= j < 8 ==> is_digit(#[trigger] ymd_block(dt)[j]),
        forall|j: int| 0 <= j < 6 ==> is_digit(#[trigger] hms_block(dt)[j]),
{
    let y = dt.year as int;
    assert(0 <= y / 1000 < 10 && 0 <= (y / 100) % 10 < 10 && 0 <= (y / 10) % 10 < 10 && 0 <= y % 10
        < 10 && (y / 1000) * 1000 + ((y / 100) % 10) * 100 + ((y / 10) % 10) * 10 + y % 10 == y)
        by (nonlinear_arith)
        requires
            0 <= y <= 9999,
    ;
    let y4 = seq![
        digit_char(y / 1000),
        digit_char((y / 100) % 10),
        digit_char((y / 10) % 10),
        digit_char(y % 10),
    ];
    let mo2 = seq![digit_char(dt.month as int / 10), digit_char(dt.month as int % 10)];
    let dy2 = seq![digit_char(dt.day as int / 10), digit_char(dt.day as int % 10)];
    let h2 = seq![digit_char(dt.hour as int / 10), digit_char(dt.hour as int % 10)];
    let mi2 = seq![digit_char(dt.minute as int / 10), digit_char(dt.minute as int % 10)];
    let se2 = seq![digit_char(dt.second as int / 10), digit_char(dt.second as int % 10)];
    assert(y4 =~= seq![digit_char(y / 1000), digit_char((y / 100) % 10)] + seq![
        digit_char((y / 10) % 10),
        digit_char(y % 10),
    ]);
    lemma_digits_value2(y / 1000, (y / 100) % 10);
    lemma_digits_value2((y / 10) % 10, y % 10);
    lemma_digits_value_concat(
        seq![digit_char(y / 1000), digit_char((y / 100) % 10)],
        seq![digit_char((y / 10) % 10), digit_char(y % 10)],
    );
    assert(pow10(0) == 1);
    assert(pow10(1) == 10);
    assert(pow10(2) == 100);
    assert((y / 1000) * 10 + (y / 100) % 10 >= 0);
    assert(((y / 1000) * 10 + (y / 100) % 10) * 100 == (y / 1000) * 1000 + ((y / 100) % 10) * 100)
        by (nonlinear_arith);
    assert(digits_value(y4) == y);
    lemma_digits_value2(dt.month as int / 10, dt.month as int % 10);
    lemma_digits_value2(dt.day as int / 10, dt.day as int % 10);
    lemma_digits_value2(dt.hour as int / 10, dt.hour as int % 10);
    lemma_digits_value2(dt.minute as int / 10, dt.minute as int % 10);
    lemma_digits_value2(dt.second as int / 10, dt.second as int % 10);
    assert(digits_value(mo2) == dt.month as int);
    assert(digits_value(dy2) == dt.day as int);
    lemma_digits_value_concat(y4 + mo2, dy2);
    lemma_digits_value_concat(y4, mo2);
    assert(ymd_block(dt) =~= (y4 + mo2) + dy2);
    assert(digits_value(y4 + mo2) == y * 100 + dt.month as int);
    assert((y * 100 + dt.month as int) * 100 == y * 10000 + dt.month as int * 100)
        by (nonlinear_arith);
    lemma_digits_value_concat(h2 + mi2, se2);
    lemma_digits_value_concat(h2, mi2);
    assert(hms_block(dt) =~= (h2 + mi2) + se2);
    assert(digits_value(h2 + mi2) == dt.hour as int * 100 + dt.minute as int);
    assert((dt.hour as int * 100 + dt.minute as int) * 100 == dt.hour as int * 10000
        + dt.minute as int * 100) by (nonlinear_arith);
    assert forall|j: int| 0 <= j < 8 implies is_digit(#[trigger] ymd_block(dt)[j]) by {
        crate::text::lemma_digit_char_val(y / 1000);
        crate::text::lemma_digit_char_val((y / 100) % 10);
        crate::text::lemma_digit_char_val((y / 10) % 10);
        crate::text::lemma_digit_char_val(y % 10);
        crate::text::lemma_digit_char_val(dt.month as int / 10);
        crate::text::lemma_digit_char_val(dt.month as int % 10);
        crate::text::lemma_digit_char_val(dt.day as int / 10);
        crate::text::lemma_digit_char_val(dt.day as int % 10);
    }
    assert forall|j: int| 0 <= j < 6 implies is_digit(#[trigger] hms_block(dt)[j]) by {
        crate::text::lemma_digit_char_val(dt.hour as int / 10);
        crate::text::lemma_digit_char_val(dt.hour as int % 10);
        crate::text::lemma_digit_char_val(dt.minute as int / 10);
        crate::text::lemma_digit_char_val(dt.minute as int % 10);
        crate::text::lemma_digit_char_val(dt.second as int / 10);
        crate::text::lemma_digit_char_val(dt.second as int % 10);
    }
}

/// Lexicographic order of the compact `YYYYMMDD-HHMMSS` renderings of
/// two well-formed instants is exactly their chronological order.
#[verifier::rlimit(100)]
pub proof fn lemma_compact_name_order(a: DateTime, b: DateTime)
    requires
        a.wf(),
        b.wf(),
    ensures
        str_le(fmt_compact(a), fmt_compact(b)) <==> lex_le(a, b),
        fmt_compact(a) == fmt_compact(b) <==> a == b,
{
    lemma_compact_blocks(a);
    lemma_compact_blocks(b);
    let ya = ymd_block(a);
    let yb = ymd_block(b);
    let ha = hms_block(a);
    let hb = hms_block(b);
    assert(fmt_compact(a) =~= ya + (seq!['-'] + ha));
    assert(fmt_compact(b) =~= yb + (seq!['-'] + hb));
    lemma_str_le_concat(ya, seq!['-'] + ha, yb, seq!['-'] + hb);
    lemma_str_le_concat(seq!['-'], ha, seq!['-'], hb);
    lemma_digit_block_le(ya, yb, digits_value(ya), digits_value(yb), 8);
    lemma_digit_block_le(ha, hb, digits_value(ha), digits_value(hb), 6);
    assert(ymd_value(a) == ymd_value(b) <==> (a.year == b.year && a.month == b.month && a.day
        == b.day));
    assert(hms_value(a) == hms_value(b) <==> (a.hour == b.hour && a.minute == b.minute && a.second
        == b.second));
    assert((ymd_value(a) < ymd_value(b)) <==> (if a.year != b.year {
        a.year < b.year
    } else if a.month != b.month {
        a.month < b.month
    } else {
        a.day < b.day
    }));
    assert((hms_value(a) < hms_value(b)) <==> (if a.hour != b.hour {
        a.hour < b.hour
    } else if a.minute != b.minute {
        a.minute < b.minute
    } else {
        a.second < b.second
    }));
    assert(str_le(fmt_compact(a), fmt_compact(b)) == if ya == yb {
        str_le(ha, hb)
    } else {
        str_le(ya, yb)
    });
    if fmt_compact(a) == fmt_compact(b) {
        assert(ya + (seq!['-'] + ha) =~= fmt_compact(a));
        assert(yb + (seq!['-'] + hb) =~= fmt_compact(b));
        assert forall|j: int| 0 <= j < 8 implies ya[j] == yb[j] by {
            assert(fmt_compact(a)[j] == fmt_compact(b)[j]);
        }
        assert(ya =~= yb);
        assert forall|j: int| 0 <= j < 6 implies ha[j] == hb[j] by {
            assert(fmt_compact(a)[j + 9] == fmt_compact(b)[j + 9]);
        }
        assert(ha =~= hb);
    }
    if a == b {
        assert(fmt_compact(a) =~= fmt_compact(b));
    }
}

/// Different instants order their canonical file names chronologically,
/// whatever projects the names carry: the stated basis for finding the
/// most recent event by scanning names in descending order.
#[verifier::rlimit(100)]
pub proof fn lemma_file_name_order(a: DateTime, b: DateTime, pa: Seq<char>, pb: Seq<char>)
    requires
        a.wf(),
        b.wf(),
        total_seconds(a) != total_seconds(b),
    ensures
        str_le(
            crate::event::file_name_of(a, pa),
            crate::event::file_name_of(b, pb),
        ) <==> total_seconds(a) < total_seconds(b),
{
    crate::datetime::lemma_order_matches_seconds(a, b);
    crate::datetime::lemma_order_matches_seconds(b, a);
    lemma_compact_name_order(a, b);
    lemma_compact_name_order(b, a);
    assert(a != b);
    assert(fmt_compact(a) != fmt_compact(b));
    lemma_str_le_concat(
        fmt_compact(a),
        seq!['_'] + pa + ".trc"@,
        fmt_compact(b),
        seq!['_'] + pb + ".trc"@,
    );
    assert(crate::event::file_name_of(a, pa) =~= fmt_compact(a) + (seq!['_'] + pa + ".trc"@));
    assert(crate::event::file_name_of(b, pb) =~= fmt_compact(b) + (seq!['_'] + pb + ".trc"@));
}

/// Ten to the power `w`.
pub open spec fn pow10(w: int) -> int
    decreases w,
{
    if w <= 0 {
        1
    } else {
        10 * pow10(w - 1)
    }
}

proof fn lemma_pow10_positive(w: int)
    ensures
        pow10(w) >= 1,
    decreases w,
{
    if w > 0 {
        lemma_pow10_positive(w - 1);
        assert(10 * pow10(w - 1) >= 10 * 1) by (nonlinear_arith)
            requires
                pow10(w - 1) >= 1,
        ;
    }
}

/// The number a digit block denotes.
pub open spec fn digits_value(s: Seq<char>) -> int
    decreases s.len(),
{
    if s.len() == 0 {
        0
    } else {
        digit_val(s[0]) * pow10(s.len() - 1) + digits_value(s.drop_first())
    }
}

proof fn lemma_digits_value_bounds(s: Seq<char>)
    requires
        forall|j: int| 0 <= j < s.len() ==> is_digit(#[trigger] s[j]),
    ensures
        0 <= digits_value(s) < pow10(s.len() as int),
    decreases s.len(),
{
    if s.len() == 0 {
    } else {
        let s1 = s.drop_first();
        lemma_digits_value_bounds(s1);
        lemma_pow10_positive(s.len() - 1);
        let pw = pow10(s.len() - 1);
        assert(digit_val(s[0]) * pw <= 9 * pw) by (nonlinear_arith)
            requires
                0 <= digit_val(s[0]) <= 9,
                pw > 0,
        ;
        assert(digit_val(s[0]) * pw >= 0) by (nonlinear_arith)
            requires
                digit_val(s[0]) >= 0,
                pw > 0,
        ;
        assert(9 * pw + pw == 10 * pw);
    }
}

} // verus!
