//! The flexible date resolver: turns a human-entered date/time string
//! into a full timestamp, defaulting missing components from a reference
//! "now".

use vstd::prelude::*;

verus! {

use crate::datetime::{
    DateTime, fmt_ymd, fmt_hms, parse_rfc3339, rfc3339_valid, rfc3339_value,
};
use crate::errors::TrackError;
use crate::text::{
    trim, trim_start, trim_end, trim_chars, chars_of_str, count_char, count_char_exec, find_first,
    find_char_exec, subrange_chars,
};

/// The word `now`, compared without regard to ASCII case.
pub open spec fn is_now_word(s: Seq<char>) -> bool {
    &&& s.len() == 3
    &&& (s[0] == 'n' || s[0] == 'N')
    &&& (s[1] == 'o' || s[1] == 'O')
    &&& (s[2] == 'w' || s[2] == 'W')
}

/// The input with each space turned into the `T` separator.
pub open spec fn replace_space_t(s: Seq<char>) -> Seq<char> {
    Seq::new(
        s.len(),
        |i: int|
            if s[i] == ' ' {
                'T'
            } else {
                s[i]
            },
    )
}

/// A time part with exactly one colon gets `:00` appended; any other
/// shape is left alone.
pub open spec fn fix_time(t: Seq<char>) -> Seq<char> {
    if count_char(t, ':') == 1 {
        t + seq![':', '0', '0']
    } else {
        t
    }
}

/// The full timestamp text composed from a separator-normalized input
/// `u` and the reference `r`: a lone time part is prefixed with `r`'s
/// date, a lone date part is suffixed with `r`'s time, and a seconds
/// field is supplied when missing.
pub open spec fn compose(u: Seq<char>, r: DateTime) -> Seq<char> {
    let k = find_first(u, 'T');
    if k == u.len() {
        if find_first(u, ':') < u.len() {
            fmt_ymd(r) + seq!['T'] + fix_time(u)
        } else {
            u + seq!['T'] + fmt_hms(r)
        }
    } else {
        u.take(k) + seq!['T'] + fix_time(u.skip(k + 1))
    }
}

/// What resolving the input `s` against the reference `r` yields: the
/// reference itself for (any casing of) `now`, otherwise the composed
/// timestamp when it is a valid strict timestamp, and nothing when it is
/// not.
pub open spec fn spec_resolve(s: Seq<char>, r: DateTime) -> Option<DateTime> {
    let t = trim(s);
    if is_now_word(t) {
        Some(r)
    } else {
        let c = compose(replace_space_t(t), r);
        if rfc3339_valid(c) {
            Some(rfc3339_value(c))
        } else {
            None
        }
    }
}

/// Whether the characters spell `now`, without regard to ASCII case.
fn is_now_exec(v: &Vec<char>) -> (r: bool)
    ensures
        r == is_now_word(v@),
{
    v.len() == 3 && (v[0] == 'n' || v[0] == 'N') && (v[1] == 'o' || v[1] == 'O') && (v[2] == 'w'
        || v[2] == 'W')
}

/// The input with each space turned into the `T` separator.
fn replace_spaces(v: &Vec<char>) -> (r: Vec<char>)
    ensures
        r@ == replace_space_t(v@),
{
    let mut r: Vec<char> = Vec::new();
    let mut i: usize = 0;
    while i < v.len()
        invariant
            i <= v@.len(),
            r@.len() == i,
            forall|j: int|
                0 <= j < i ==> r@[j] == (if v@[j] == ' ' {
                    'T'
                } else {
                    v@[j]
                }),
        decreases v@.len() - i,
    {
        if v[i] == ' ' {
            r.push('T');
        } else {
            r.push(v[i]);
        }
        i = i + 1;
    }
    proof {
        assert(r@ =~= replace_space_t(v@));
    }
    r
}

/// Appends `:00` when the time part has exactly one colon.
fn fix_time_exec(t: Vec<char>) -> (r: Vec<char>)
    ensures
        r@ == fix_time(t@),
{
    let ghost orig = t@;
    let c = count_char_exec(&t, ':');
    let mut r = t;
    if c == 1 {
        r.push(':');
        r.push('0');
        r.push('0');
        proof {
            assert(r@ =~= fix_time(orig));
        }
    }
    r
}

/// Resolves a human-entered date/time string against the reference
/// timestamp.
///
/// An absent input and (any casing of) `now` resolve to the reference.
/// A lone time inherits the reference's date, a lone date the
/// reference's time, and a missing seconds field becomes `:00`; the
/// composed text must then be a strict `YYYY-MM-DDTHH:MM:SS` timestamp
/// denoting a valid calendar date, or the input is rejected with
/// [`TrackError::InvalidDate`] carrying the original input.
pub fn resolve(input: Option<&String>, reference: DateTime) -> (r: Result<DateTime, TrackError>)
    requires
        reference.wf(),
    ensures
        match input {
            None => r == Ok::<DateTime, TrackError>(reference),
            Some(s) => match r {
                Ok(dt) => spec_resolve(s@, reference) == Some(dt) && dt.wf(),
                Err(e) => spec_resolve(s@, reference) == None::<DateTime> && e == (
                TrackError::InvalidDate(*s)),
            },
        },
{
    let s = match input {
        None => {
            return Ok(reference);
        },
        Some(s) => s,
    };
    let chars = chars_of_str(s.as_str());
    let trimmed = trim_chars(&chars);
    if is_now_exec(&trimmed) {
        return Ok(reference);
    }
    let u = replace_spaces(&trimmed);
    let k = find_char_exec(&u, 'T');
    proof {
        crate::text::lemma_find_first(u@, 'T');
    }
    let composed: Vec<char> = if k == u.len() {
        let colon = find_char_exec(&u, ':');
        proof {
            crate::text::lemma_find_first(u@, ':');
        }
        if colon < u.len() {
            let mut v: Vec<char> = Vec::new();
            reference.push_ymd(&mut v);
            v.push('T');
            let mut fixed = fix_time_exec(subrange_chars(&u, 0, u.len()));
            proof {
                assert(u@.subrange(0, u@.len() as int) =~= u@);
            }
            v.append(&mut fixed);
            proof {
                assert(v@ =~= compose(u@, reference));
            }
            v
        } else {
            let mut v = subrange_chars(&u, 0, u.len());
            proof {
                assert(v@ =~= u@);
            }
            v.push('T');
            reference.push_hms(&mut v);
            proof {
                assert(v@ =~= compose(u@, reference));
            }
            v
        }
    } else {
        let mut v = subrange_chars(&u, 0, k);
        proof {
            assert(v@ =~= u@.take(k as int));
        }
        v.push('T');
        let mut fixed = fix_time_exec(subrange_chars(&u, k + 1, u.len()));
        proof {
            assert(u@.subrange(k as int + 1, u@.len() as int) =~= u@.skip(k as int + 1));
        }
        v.append(&mut fixed);
        proof {
            assert(v@ =~= compose(u@, reference));
        }
        v
    };
    match parse_rfc3339(&composed) {
        Some(dt) => Ok(dt),
        None => Err(TrackError::InvalidDate(s.clone())),
    }
}

/// Characters a date rendering consists of: digits and the separators.
spec fn is_date_char(c: char) -> bool {
    crate::text::is_digit(c) || c == '-' || c == ':' || c == 'T'
}

/// Date characters are neither whitespace nor spaces to replace.
proof fn lemma_date_char_plain(c: char)
    requires
        is_date_char(c),
    ensures
        !crate::text::is_space(c),
        c != ' ',
{
}

/// The rendered pieces hold only digits and separators, with `T` and
/// `:` only at their fixed places.
proof fn lemma_fmt_piece_chars(dt: DateTime)
    requires
        dt.wf(),
    ensures
        forall|j: int|
            0 <= j < 10 ==> is_date_char(#[trigger] crate::datetime::fmt_ymd(dt)[j]) && crate::datetime::fmt_ymd(
                dt,
            )[j] != 'T' && crate::datetime::fmt_ymd(dt)[j] != ':',
        forall|j: int|
            0 <= j < 8 ==> is_date_char(#[trigger] fmt_hms(dt)[j]) && fmt_hms(dt)[j] != 'T',
        forall|j: int|
            0 <= j < 5 ==> is_date_char(#[trigger] crate::datetime::fmt_hm(dt)[j]) && crate::datetime::fmt_hm(
                dt,
            )[j] != 'T',
        fmt_hms(dt)[2] == ':' && fmt_hms(dt)[5] == ':',
        crate::datetime::fmt_hm(dt)[2] == ':',
        forall|j: int| 0 <= j < 8 && j != 2 && j != 5 ==> #[trigger] fmt_hms(dt)[j] != ':',
        forall|j: int| 0 <= j < 5 && j != 2 ==> #[trigger] crate::datetime::fmt_hm(dt)[j] != ':',
{
    crate::text::lemma_digit_char_val(dt.year as int / 1000);
    crate::text::lemma_digit_char_val((dt.year as int / 100) % 10);
    crate::text::lemma_digit_char_val((dt.year as int / 10) % 10);
    crate::text::lemma_digit_char_val(dt.year as int % 10);
    crate::text::lemma_digit_char_val(dt.month as int / 10);
    crate::text::lemma_digit_char_val(dt.month as int % 10);
    crate::text::lemma_digit_char_val(dt.day as int / 10);
    crate::text::lemma_digit_char_val(dt.day as int % 10);
    crate::text::lemma_digit_char_val(dt.hour as int / 10);
    crate::text::lemma_digit_char_val(dt.hour as int % 10);
    crate::text::lemma_digit_char_val(dt.minute as int / 10);
    crate::text::lemma_digit_char_val(dt.minute as int % 10);
    crate::text::lemma_digit_char_val(dt.second as int / 10);
    crate::text::lemma_digit_char_val(dt.second as int % 10);
}

/// A text of date characters is left alone by trimming and separator
/// replacement.
proof fn lemma_plain_text(s: Seq<char>)
    requires
        s.len() > 0,
        is_date_char(s[0]),
        is_date_char(s.last()),
        forall|j: int| 0 <= j < s.len() ==> #[trigger] s[j] != ' ',
    ensures
        trim(s) == s,
        replace_space_t(s) == s,
{
    lemma_date_char_plain(s[0]);
    lemma_date_char_plain(s.last());
    assert(trim_start(s) == s);
    assert(trim_end(s) == s);
    assert(replace_space_t(s) =~= s);
}

/// The `HH:MM:SS` rendering has exactly two colons.
proof fn lemma_hms_colons(dt: DateTime)
    requires
        dt.wf(),
    ensures
        count_char(fmt_hms(dt), ':') == 2,
{
    lemma_fmt_piece_chars(dt);
    let s = fmt_hms(dt);
    assert(s.len() == 8);
    assert(s.take(0) =~= Seq::<char>::empty());
    assert(count_char(s.take(0), ':') == 0);
    lemma_count_step(s, 1);
    lemma_count_step(s, 2);
    lemma_count_step(s, 3);
    lemma_count_step(s, 4);
    lemma_count_step(s, 5);
    lemma_count_step(s, 6);
    lemma_count_step(s, 7);
    lemma_count_step(s, 8);
    assert(s.take(8) =~= s);
}

/// The `HH:MM` rendering has exactly one colon.
proof fn lemma_hm_colons(dt: DateTime)
    requires
        dt.wf(),
    ensures
        count_char(crate::datetime::fmt_hm(dt), ':') == 1,
{
    lemma_fmt_piece_chars(dt);
    let s = crate::datetime::fmt_hm(dt);
    assert(s.len() == 5);
    assert(s.take(0) =~= Seq::<char>::empty());
    assert(count_char(s.take(0), ':') == 0);
    lemma_count_step(s, 1);
    lemma_count_step(s, 2);
    lemma_count_step(s, 3);
    lemma_count_step(s, 4);
    lemma_count_step(s, 5);
    assert(s.take(5) =~= s);
}

/// One step of counting over a prefix.
proof fn lemma_count_step(s: Seq<char>, k: int)
    requires
        1 <= k <= s.len(),
    ensures
        count_char(s.take(k), ':') == count_char(s.take(k - 1), ':') + (if s[k - 1] == ':' {
            1int
        } else {
            0int
        }),
{
    assert(s.take(k).drop_last() =~= s.take(k - 1));
    assert(s.take(k).last() == s[k - 1]);
}

/// Resolving the word `now` yields the reference itself.
pub proof fn lemma_resolve_now(r: DateTime)
    requires
        r.wf(),
    ensures
        spec_resolve("now"@, r) == Some(r),
{
    reveal_strlit("now");
    let s = "now"@;
    assert(trim_start(s) == s);
    assert(trim_end(s) == s);
    assert(is_now_word(trim(s)));
}

/// Resolving a full strict timestamp yields exactly that instant.
#[verifier::rlimit(100)]
pub proof fn lemma_resolve_exact(dt: DateTime, r: DateTime)
    requires
        dt.wf(),
        r.wf(),
    ensures
        spec_resolve(crate::datetime::fmt_rfc3339(dt), r) == Some(dt),
{
    let s = crate::datetime::fmt_rfc3339(dt);
    lemma_fmt_piece_chars(dt);
    assert(s.len() == 19);
    assert(s[0] == fmt_ymd(dt)[0]);
    assert(s[18] == fmt_hms(dt)[7]);
    assert(s.last() == s[18]);
    assert forall|j: int| 0 <= j < 19 implies #[trigger] s[j] != ' ' by {
        if j < 10 {
            assert(s[j] == fmt_ymd(dt)[j]);
            lemma_date_char_plain(fmt_ymd(dt)[j]);
        } else if j == 10 {
            assert(s[j] == 'T');
        } else {
            assert(s[j] == fmt_hms(dt)[j - 11]);
            lemma_date_char_plain(fmt_hms(dt)[j - 11]);
        }
    }
    lemma_plain_text(s);
    assert(!is_now_word(trim(s)));
    crate::text::lemma_find_first(s, 'T');
    assert(s[10] == 'T');
    assert forall|j: int| 0 <= j < 10 implies #[trigger] s[j] != 'T' by {
        assert(s[j] == fmt_ymd(dt)[j]);
    }
    assert(find_first(s, 'T') == 10);
    assert(s.take(10) =~= fmt_ymd(dt));
    assert(s.skip(11) =~= fmt_hms(dt));
    lemma_hms_colons(dt);
    assert(fix_time(fmt_hms(dt)) == fmt_hms(dt));
    assert(compose(s, r) == s.take(10) + seq!['T'] + fmt_hms(dt));
    assert(s.take(10) + seq!['T'] + fmt_hms(dt) =~= s);
    crate::datetime::lemma_rfc3339_round_trip(dt);
}

/// Resolving a lone date takes the reference's time of day.
#[verifier::rlimit(100)]
pub proof fn lemma_resolve_date_only(d: DateTime, r: DateTime)
    requires
        d.wf(),
        r.wf(),
    ensures
        spec_resolve(fmt_ymd(d), r) == Some(
            DateTime {
                year: d.year,
                month: d.month,
                day: d.day,
                hour: r.hour,
                minute: r.minute,
                second: r.second,
            },
        ),
{
    let s = fmt_ymd(d);
    lemma_fmt_piece_chars(d);
    assert(s.len() == 10);
    assert forall|j: int| 0 <= j < 10 implies #[trigger] s[j] != ' ' by {
        lemma_date_char_plain(s[j]);
    }
    assert(s.last() == s[9]);
    lemma_plain_text(s);
    assert(!is_now_word(trim(s)));
    crate::text::lemma_find_first(s, 'T');
    assert(find_first(s, 'T') == 10);
    crate::text::lemma_find_first(s, ':');
    assert(find_first(s, ':') == 10);
    let mixed = DateTime {
        year: d.year,
        month: d.month,
        day: d.day,
        hour: r.hour,
        minute: r.minute,
        second: r.second,
    };
    assert(mixed.wf());
    assert(compose(s, r) == s + seq!['T'] + fmt_hms(r));
    assert(fmt_ymd(mixed) == s);
    assert(fmt_hms(mixed) == fmt_hms(r));
    assert(s + seq!['T'] + fmt_hms(r) =~= crate::datetime::fmt_rfc3339(mixed));
    crate::datetime::lemma_rfc3339_round_trip(mixed);
}

/// Resolving a lone `HH:MM:SS` time takes the reference's date.
#[verifier::rlimit(100)]
pub proof fn lemma_resolve_time_hms(t: DateTime, r: DateTime)
    requires
        t.wf(),
        r.wf(),
    ensures
        spec_resolve(fmt_hms(t), r) == Some(
            DateTime {
                year: r.year,
                month: r.month,
                day: r.day,
                hour: t.hour,
                minute: t.minute,
                second: t.second,
            },
        ),
{
    let s = fmt_hms(t);
    lemma_fmt_piece_chars(t);
    assert(s.len() == 8);
    assert forall|j: int| 0 <= j < 8 implies #[trigger] s[j] != ' ' by {
        lemma_date_char_plain(s[j]);
    }
    assert(s.last() == s[7]);
    lemma_plain_text(s);
    assert(!is_now_word(trim(s)));
    crate::text::lemma_find_first(s, 'T');
    assert(find_first(s, 'T') == 8);
    crate::text::lemma_find_first(s, ':');
    assert(s[2] == ':');
    assert(find_first(s, ':') <= 2);
    assert(find_first(s, ':') < 8);
    lemma_hms_colons(t);
    assert(fix_time(s) == s);
    let mixed = DateTime {
        year: r.year,
        month: r.month,
        day: r.day,
        hour: t.hour,
        minute: t.minute,
        second: t.second,
    };
    assert(mixed.wf());
    assert(compose(s, r) == fmt_ymd(r) + seq!['T'] + s);
    assert(fmt_ymd(mixed) == fmt_ymd(r));
    assert(fmt_hms(mixed) == s);
    assert(fmt_ymd(r) + seq!['T'] + s =~= crate::datetime::fmt_rfc3339(mixed));
    crate::datetime::lemma_rfc3339_round_trip(mixed);
}

/// Resolving a lone `HH:MM` time takes the reference's date and zero
/// seconds.
#[verifier::rlimit(100)]
pub proof fn lemma_resolve_time_hm(t: DateTime, r: DateTime)
    requires
        t.wf(),
        r.wf(),
    ensures
        spec_resolve(crate::datetime::fmt_hm(t), r) == Some(
            DateTime {
                year: r.year,
                month: r.month,
                day: r.day,
                hour: t.hour,
                minute: t.minute,
                second: 0,
            },
        ),
{
    let s = crate::datetime::fmt_hm(t);
    lemma_fmt_piece_chars(t);
    assert(s.len() == 5);
    assert forall|j: int| 0 <= j < 5 implies #[trigger] s[j] != ' ' by {
        lemma_date_char_plain(s[j]);
    }
    assert(s.last() == s[4]);
    lemma_plain_text(s);
    assert(!is_now_word(trim(s)));
    crate::text::lemma_find_first(s, 'T');
    assert(find_first(s, 'T') == 5);
    crate::text::lemma_find_first(s, ':');
    assert(s[2] == ':');
    assert(find_first(s, ':') < 5);
    lemma_hm_colons(t);
    assert(fix_time(s) == s + seq![':', '0', '0']);
    let mixed = DateTime {
        year: r.year,
        month: r.month,
        day: r.day,
        hour: t.hour,
        minute: t.minute,
        second: 0,
    };
    assert(mixed.wf());
    crate::text::lemma_digit_char_val(0);
    assert(crate::text::code_of('0') == 48);
    assert(crate::text::code_of(crate::text::digit_char(0)) == 48);
    assert('0' == crate::text::digit_char(0));
    assert(compose(s, r) == fmt_ymd(r) + seq!['T'] + (s + seq![':', '0', '0']));
    assert(fmt_hms(mixed) =~= s + seq![':', '0', '0']);
    assert(fmt_ymd(r) + seq!['T'] + (s + seq![':', '0', '0']) =~= crate::datetime::fmt_rfc3339(
        mixed,
    ));
    crate::datetime::lemma_rfc3339_round_trip(mixed);
}

/// Resolving a date with an `HH:MM` time supplies zero seconds.
#[verifier::rlimit(100)]
pub proof fn lemma_resolve_date_hm(d: DateTime, t: DateTime, r: DateTime)
    requires
        d.wf(),
        t.wf(),
        r.wf(),
    ensures
        spec_resolve(fmt_ymd(d) + seq!['T'] + crate::datetime::fmt_hm(t), r) == Some(
            DateTime {
                year: d.year,
                month: d.month,
                day: d.day,
                hour: t.hour,
                minute: t.minute,
                second: 0,
            },
        ),
{
    let s = fmt_ymd(d) + seq!['T'] + crate::datetime::fmt_hm(t);
    lemma_fmt_piece_chars(d);
    lemma_fmt_piece_chars(t);
    assert(s.len() == 16);
    assert(s[0] == fmt_ymd(d)[0]);
    assert(s[15] == crate::datetime::fmt_hm(t)[4]);
    assert(s.last() == s[15]);
    assert forall|j: int| 0 <= j < 16 implies #[trigger] s[j] != ' ' by {
        if j < 10 {
            assert(s[j] == fmt_ymd(d)[j]);
            lemma_date_char_plain(fmt_ymd(d)[j]);
        } else if j == 10 {
            assert(s[j] == 'T');
        } else {
            assert(s[j] == crate::datetime::fmt_hm(t)[j - 11]);
            lemma_date_char_plain(crate::datetime::fmt_hm(t)[j - 11]);
        }
    }
    lemma_plain_text(s);
    assert(!is_now_word(trim(s)));
    crate::text::lemma_find_first(s, 'T');
    assert(s[10] == 'T');
    assert forall|j: int| 0 <= j < 10 implies #[trigger] s[j] != 'T' by {
        assert(s[j] == fmt_ymd(d)[j]);
    }
    assert(find_first(s, 'T') == 10);
    assert(s.take(10) =~= fmt_ymd(d));
    assert(s.skip(11) =~= crate::datetime::fmt_hm(t));
    lemma_hm_colons(t);
    assert(fix_time(crate::datetime::fmt_hm(t)) == crate::datetime::fmt_hm(t) + seq![
        ':',
        '0',
        '0',
    ]);
    let mixed = DateTime {
        year: d.year,
        month: d.month,
        day: d.day,
        hour: t.hour,
        minute: t.minute,
        second: 0,
    };
    assert(mixed.wf());
    crate::text::lemma_digit_char_val(0);
    assert(crate::text::code_of('0') == 48);
    assert(crate::text::code_of(crate::text::digit_char(0)) == 48);
    assert('0' == crate::text::digit_char(0));
    assert(compose(s, r) == s.take(10) + seq!['T'] + (crate::datetime::fmt_hm(t) + seq![
        ':',
        '0',
        '0',
    ]));
    assert(fmt_hms(mixed) =~= crate::datetime::fmt_hm(t) + seq![':', '0', '0']);
    assert(fmt_ymd(mixed) == fmt_ymd(d));
    assert(s.take(10) + seq!['T'] + (crate::datetime::fmt_hm(t) + seq![':', '0', '0'])
        =~= crate::datetime::fmt_rfc3339(mixed));
    crate::datetime::lemma_rfc3339_round_trip(mixed);
}

} // verus!
