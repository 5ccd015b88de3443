//! The round-trip law of the record codec: a record this library writes
//! reads back as the event it was written from.

use vstd::prelude::*;

verus! {

use crate::datetime::DateTime;
use crate::record::{
    EventModel, spec_encode, quoted, escape_string, escape_char, hex_char, tags_text, int_text,
    dec_digits, duration_text, model_duration, shown_duration, enc_class_field,
    enc_description_field, enc_duration_field, enc_project_field, enc_seconds_field,
    enc_start_field, enc_stop_field, enc_tags_field, enc_user_field,
};
use crate::parse::{
    spec_decode, p_record, p_members, p_field, p_string_body, p_string_array, p_string_list,
    p_string_or_null, p_skip_value, p_hex4, ws, scalar_end, is_json_ws, is_delim, esc_map, is_hex,
    hex_val, null_at, empty_partial, RecordPartial, validate,
};
use crate::text::{is_digit, lemma_char_of};

/// Positions holding something other than whitespace are whitespace
/// fixpoints.
proof fn lemma_ws_at(s: Seq<char>, i: int)
    requires
        0 <= i <= s.len(),
        i < s.len() ==> !is_json_ws(s[i]),
    ensures
        ws(s, i) == i,
{
}

/// Hexadecimal digit characters invert to their values.
proof fn lemma_hex_char_val(d: int)
    requires
        0 <= d < 16,
    ensures
        is_hex(hex_char(d)),
        hex_val(hex_char(d)) == d,
        !is_digit(hex_char(d)) ==> 97 <= hex_char(d) as int <= 102,
{
    if d < 10 {
        crate::text::lemma_digit_char_val(d);
    }
}

/// Parsing an escaped text followed by a closing quote yields the text.
proof fn lemma_parse_escape(s: Seq<char>, i: int, x: Seq<char>)
    requires
        0 <= i,
        i + escape_string(x).len() < s.len(),
        s.subrange(i, i + escape_string(x).len()) == escape_string(x),
        s[i + escape_string(x).len()] == '"',
    ensures
        p_string_body(s, i) == Some((x, i + escape_string(x).len() + 1)),
    decreases x.len(),
{
    if x.len() == 0 {
        assert(escape_string(x).len() == 0);
        assert(s[i] == '"');
    } else {
        let c = x[0];
        let x1 = x.drop_first();
        let ec = escape_char(c);
        let e1 = escape_string(x1);
        assert(escape_string(x) == ec + e1);
        let el = escape_string(x).len();
        assert forall|q: int| 0 <= q < ec.len() implies s[i + q] == ec[q] by {
            assert(s.subrange(i, i + el)[q] == escape_string(x)[q]);
        }
        let l = ec.len() as int;
        assert(s.subrange(i + l, i + l + e1.len() as int) =~= e1) by {
            assert forall|q: int| 0 <= q < e1.len() implies s.subrange(
                i + l,
                i + l + e1.len() as int,
            )[q] == e1[q] by {
                assert(s.subrange(i, i + el)[l + q] == escape_string(x)[l + q]);
            }
        }
        lemma_parse_escape(s, i + l, x1);
        assert(seq![c] + x1 =~= x);
        if c == '"' || c == '\\' || c == '\n' || c == '\r' || c == '\t' || c == '\u{8}' || c
            == '\u{c}' {
            assert(s[i] == '\\');
            assert(ec[1] != 'u');
            assert(esc_map(ec[1]) == Some(c));
        } else if (c as int) < 0x20 {
            assert(s[i] == '\\');
            assert(s[i + 1] == 'u');
            assert(s[i + 2] == '0');
            assert(s[i + 3] == '0');
            assert(s[i + 4] == hex_char(c as int / 16));
            assert(s[i + 5] == hex_char(c as int % 16));
            crate::text::lemma_digit_char_val(0);
            crate::text::lemma_char_code(c);
            lemma_hex_char_val(c as int / 16);
            lemma_hex_char_val(c as int % 16);
            assert(p_hex4(s, i + 2) == Some(
                0 * 4096 + 0 * 256 + (c as int / 16) * 16 + (c as int % 16),
            ));
            assert((c as int / 16) * 16 + (c as int % 16) == c as int);
            assert(0 <= (c as int) && (c as int) < 0xD800);
            lemma_char_of(c, c as int);
        } else {
            assert(ec == seq![c]);
            assert(s[i] == c);
        }
    }
}

/// A JSON string literal written by the escaper reads back as the
/// original text.
proof fn lemma_parse_quoted(s: Seq<char>, i: int, x: Seq<char>)
    requires
        0 <= i,
        i + quoted(x).len() <= s.len(),
        s.subrange(i, i + quoted(x).len()) == quoted(x),
    ensures
        p_string_body(s, i + 1) == Some((x, i + quoted(x).len())),
{
    let el = escape_string(x).len() as int;
    assert(s[i] == '"') by {
        assert(s.subrange(i, i + quoted(x).len())[0] == quoted(x)[0]);
    }
    assert(s[i + 1 + el] == '"') by {
        assert(s.subrange(i, i + quoted(x).len())[1 + el] == quoted(x)[1 + el]);
        assert(quoted(x)[1 + el] == '"');
    }
    assert(s.subrange(i + 1, i + 1 + el) =~= escape_string(x)) by {
        assert forall|q: int| 0 <= q < el implies s.subrange(i + 1, i + 1 + el)[q]
            == escape_string(x)[q] by {
            assert(s.subrange(i, i + quoted(x).len())[1 + q] == quoted(x)[1 + q]);
            assert(quoted(x)[1 + q] == escape_string(x)[q]);
        }
    }
    lemma_parse_escape(s, i + 1, x);
}

/// Scalar scanning stops exactly at the first delimiter.
proof fn lemma_scalar_end_at(s: Seq<char>, i: int, k: int)
    requires
        0 <= i <= k <= s.len(),
        forall|j: int| i <= j < k ==> !is_delim(#[trigger] s[j]),
        k < s.len() ==> is_delim(s[k]),
    ensures
        scalar_end(s, i) == k,
    decreases k - i,
{
    if i < k {
        lemma_scalar_end_at(s, i + 1, k);
    }
}

/// The signed decimal rendering holds no delimiter and no quote.
proof fn lemma_int_text_chars(n: int)
    ensures
        forall|j: int|
            0 <= j < int_text(n).len() ==> !is_delim(#[trigger] int_text(n)[j]) && int_text(n)[j]
                != '"' && int_text(n)[j] != '{' && int_text(n)[j] != '[',
        int_text(n).len() >= 1,
{
    reveal(int_text);
    if n < 0 {
        crate::record::lemma_dec_digits_digits(-n);
        assert forall|j: int|
            0 <= j < int_text(n).len() implies !is_delim(#[trigger] int_text(n)[j]) && int_text(
            n,
        )[j] != '"' && int_text(n)[j] != '{' && int_text(n)[j] != '[' by {
            if j == 0 {
                assert(int_text(n)[0] == '-');
            } else {
                assert(int_text(n)[j] == dec_digits(-n)[j - 1]);
            }
        }
    } else {
        crate::record::lemma_dec_digits_digits(n);
        assert forall|j: int|
            0 <= j < int_text(n).len() implies !is_delim(#[trigger] int_text(n)[j]) && int_text(
            n,
        )[j] != '"' && int_text(n)[j] != '{' && int_text(n)[j] != '[' by {
            assert(int_text(n)[j] == dec_digits(n)[j]);
        }
    }
}

/// A written tag list followed by the closing bracket reads back as the
/// same tags.
proof fn lemma_parse_tag_list(s: Seq<char>, i: int, tags: Seq<Seq<char>>)
    requires
        0 <= i,
        tags.len() >= 1,
        i + tags_text(tags).len() < s.len(),
        s.subrange(i, i + tags_text(tags).len() as int) == tags_text(tags),
        s[i + tags_text(tags).len()] == ']',
    ensures
        p_string_list(s, i) == Some((tags, i + tags_text(tags).len() + 1)),
    decreases tags.len(),
{
    let t0 = tags[0];
    let q0 = quoted(t0);
    let tl = tags_text(tags).len() as int;
    assert(s[i] == '"') by {
        assert(s.subrange(i, i + tl)[0] == tags_text(tags)[0]);
        assert(tags_text(tags)[0] == q0[0]);
    }
    lemma_ws_at(s, i);
    assert(s.subrange(i, i + q0.len() as int) =~= q0) by {
        assert forall|q: int| 0 <= q < q0.len() implies s.subrange(i, i + q0.len() as int)[q]
            == q0[q] by {
            assert(s.subrange(i, i + tl)[q] == tags_text(tags)[q]);
            assert(tags_text(tags)[q] == q0[q]);
        }
    }
    lemma_parse_quoted(s, i, t0);
    let k = i + q0.len() as int;
    if tags.len() == 1 {
        assert(tags_text(tags) == q0);
        assert(s[k] == ']');
        lemma_ws_at(s, k);
        assert(seq![t0] =~= tags);
    } else {
        let rest = tags.drop_first();
        assert(tags_text(tags) == q0 + seq![','] + tags_text(rest));
        assert(s[k] == ',') by {
            assert(s.subrange(i, i + tl)[q0.len() as int] == tags_text(tags)[q0.len() as int]);
        }
        lemma_ws_at(s, k);
        let r0 = k + 1;
        let rl = tags_text(rest).len() as int;
        assert(s.subrange(r0, r0 + rl) =~= tags_text(rest)) by {
            assert forall|q: int| 0 <= q < rl implies s.subrange(r0, r0 + rl)[q] == tags_text(
                rest,
            )[q] by {
                assert(s.subrange(i, i + tl)[q0.len() + 1 + q] == tags_text(tags)[q0.len() + 1
                    + q]);
            }
        }
        assert(s[r0 + rl] == ']');
        lemma_parse_tag_list(s, r0, rest);
        assert(seq![t0] + rest =~= tags);
    }
}

/// One member of the written object: a key, a colon, a value the field
/// reader accepts, and the following separator.
proof fn lemma_member_step(
    s: Seq<char>,
    i: int,
    key: Seq<char>,
    vtext: Seq<char>,
    p: RecordPartial,
    p2: RecordPartial,
    more: bool,
)
    requires
        0 <= i,
        s.subrange(i, i + quoted(key).len() as int) == quoted(key),
        i + quoted(key).len() + 1 + vtext.len() < s.len(),
        s[i + quoted(key).len()] == ':',
        vtext.len() >= 1,
        !is_json_ws(vtext[0]),
        s.subrange(
            i + quoted(key).len() + 1,
            i + quoted(key).len() + 1 + vtext.len() as int,
        ) == vtext,
        s[i + quoted(key).len() + 1 + vtext.len()] == (if more {
            ','
        } else {
            '}'
        }),
        p_field(s, i + quoted(key).len() + 1, p, key) == Some(
            (p2, i + quoted(key).len() + 1 + vtext.len()),
        ),
    ensures
        p_members(s, i, p) == (if more {
            p_members(s, i + quoted(key).len() + 1 + vtext.len() + 1, p2)
        } else {
            Some((p2, i + quoted(key).len() + 1 + vtext.len() + 1))
        }),
{
    let kl = quoted(key).len() as int;
    assert(s[i] == '"') by {
        assert(s.subrange(i, i + kl)[0] == quoted(key)[0]);
    }
    lemma_ws_at(s, i);
    lemma_parse_quoted(s, i, key);
    let k = i + kl;
    lemma_ws_at(s, k);
    let v0 = k + 1;
    assert(s[v0] == vtext[0]) by {
        assert(s.subrange(v0, v0 + vtext.len() as int)[0] == vtext[0]);
    }
    lemma_ws_at(s, v0);
    let e = v0 + vtext.len() as int;
    lemma_ws_at(s, e);
}

spec fn pos_description(m: EventModel, now: DateTime) -> int {
    1 + enc_class_field().len() as int
}

spec fn pos_duration(m: EventModel, now: DateTime) -> int {
    pos_description(m, now) + enc_description_field(m).len() as int
}

spec fn pos_project(m: EventModel, now: DateTime) -> int {
    pos_duration(m, now) + enc_duration_field(m, now).len() as int
}

spec fn pos_seconds(m: EventModel, now: DateTime) -> int {
    pos_project(m, now) + enc_project_field(m).len() as int
}

spec fn pos_start(m: EventModel, now: DateTime) -> int {
    pos_seconds(m, now) + enc_seconds_field(m, now).len() as int
}

spec fn pos_stop(m: EventModel, now: DateTime) -> int {
    pos_start(m, now) + enc_start_field(m).len() as int
}

spec fn pos_tags(m: EventModel, now: DateTime) -> int {
    pos_stop(m, now) + enc_stop_field(m).len() as int
}

spec fn pos_user(m: EventModel, now: DateTime) -> int {
    pos_tags(m, now) + enc_tags_field(m).len() as int
}

spec fn pos_end(m: EventModel, now: DateTime, user: Option<Seq<char>>) -> int {
    pos_user(m, now) + enc_user_field(user).len() as int
}

spec fn seen_description(m: EventModel) -> RecordPartial {
    RecordPartial {
        project: None,
        description: Some(Some(m.description)),
        start: None,
        stop: None,
        tags: None,
    }
}

spec fn seen_project(m: EventModel) -> RecordPartial {
    RecordPartial {
        project: Some(m.project),
        description: Some(Some(m.description)),
        start: None,
        stop: None,
        tags: None,
    }
}

spec fn seen_start(m: EventModel) -> RecordPartial {
    RecordPartial {
        project: Some(m.project),
        description: Some(Some(m.description)),
        start: Some(crate::datetime::fmt_rfc3339(m.start)),
        stop: None,
        tags: None,
    }
}

spec fn seen_stop(m: EventModel) -> RecordPartial {
    RecordPartial {
        project: Some(m.project),
        description: Some(Some(m.description)),
        start: Some(crate::datetime::fmt_rfc3339(m.start)),
        stop: Some(
            match m.stop {
                Some(t) => Some(crate::datetime::fmt_rfc3339(t)),
                None => None,
            },
        ),
        tags: None,
    }
}

spec fn seen_all(m: EventModel) -> RecordPartial {
    RecordPartial {
        project: Some(m.project),
        description: Some(Some(m.description)),
        start: Some(crate::datetime::fmt_rfc3339(m.start)),
        stop: Some(
            match m.stop {
                Some(t) => Some(crate::datetime::fmt_rfc3339(t)),
                None => None,
            },
        ),
        tags: Some(m.tags),
    }
}

/// The encoded record ends exactly at its last brace.
proof fn lemma_encoded_length(m: EventModel, now: DateTime, user: Option<Seq<char>>)
    ensures
        pos_end(m, now, user) == spec_encode(m, now, user).len(),
{
}

/// One member with an unknown key and a string value: the value is
/// skipped and the fields stay as they were.
proof fn lemma_member_skip_string(
    s: Seq<char>,
    i: int,
    key: Seq<char>,
    x: Seq<char>,
    p: RecordPartial,
    more: bool,
)
    requires
        0 <= i,
        s.subrange(i, i + quoted(key).len() as int) == quoted(key),
        i + quoted(key).len() + 1 + quoted(x).len() < s.len(),
        s[i + quoted(key).len()] == ':',
        s.subrange(
            i + quoted(key).len() + 1,
            i + quoted(key).len() + 1 + quoted(x).len() as int,
        ) == quoted(x),
        s[i + quoted(key).len() + 1 + quoted(x).len()] == (if more {
            ','
        } else {
            '}'
        }),
        key != "project"@,
        key != "description"@,
        key != "start"@,
        key != "stop"@,
        key != "tags"@,
    ensures
        p_members(s, i, p) == (if more {
            p_members(s, i + quoted(key).len() + 1 + quoted(x).len() + 1, p)
        } else {
            Some((p, i + quoted(key).len() + 1 + quoted(x).len() + 1))
        }),
{
    let v0 = i + quoted(key).len() as int + 1;
    lemma_parse_quoted(s, v0, x);
    assert(s[v0] == '"') by {
        assert(s.subrange(v0, v0 + quoted(x).len() as int)[0] == quoted(x)[0]);
    }
    assert(p_skip_value(s, v0) == Some(v0 + quoted(x).len()));
    assert(p_field(s, v0, p, key) == Some((p, v0 + quoted(x).len())));
    lemma_member_step(s, i, key, quoted(x), p, p, more);
}

/// Reading the class member: an unknown key whose string value is
/// skipped.
#[verifier::rlimit(100)]
proof fn lemma_read_class_member(m: EventModel, now: DateTime, user: Option<Seq<char>>)
    ensures
        p_members(spec_encode(m, now, user), 1, empty_partial()) == p_members(
            spec_encode(m, now, user),
            pos_description(m, now),
            empty_partial(),
        ),
{
    reveal_strlit("__CLASS__");
    reveal_strlit("App::TimeTracker::Data::Task");
    reveal_strlit("description");
    reveal_strlit("project");
    reveal_strlit("start");
    reveal_strlit("stop");
    reveal_strlit("tags");
    lemma_encoded_length(m, now, user);
    let s = spec_encode(m, now, user);
    let p0 = empty_partial();
    let q1: int = 1;
    let k1 = quoted("__CLASS__"@);
    let v1 = quoted("App::TimeTracker::Data::Task"@);
    lemma_field_at(s, q1, k1, v1);
    lemma_member_skip_string(s, q1, "__CLASS__"@, "App::TimeTracker::Data::Task"@, p0, true);
}

/// Reading the description member.
#[verifier::rlimit(100)]
proof fn lemma_read_description_member(m: EventModel, now: DateTime, user: Option<Seq<char>>)
    ensures
        p_members(spec_encode(m, now, user), pos_description(m, now), empty_partial()) == p_members(
            spec_encode(m, now, user),
            pos_duration(m, now),
            seen_description(m),
        ),
{
    reveal_strlit("description");
    reveal_strlit("project");
    reveal_strlit("start");
    reveal_strlit("stop");
    reveal_strlit("tags");
    lemma_encoded_length(m, now, user);
    let s = spec_encode(m, now, user);
    let p0 = empty_partial();
    let pa = seen_description(m);
    let q2 = pos_description(m, now);
    let k2 = quoted("description"@);
    let v2 = quoted(m.description);
    lemma_field_at(s, q2, k2, v2);
    lemma_parse_quoted(s, q2 + k2.len() + 1, m.description);
    assert(s[q2 + k2.len() + 1] == '"') by {
        assert(s.subrange(q2 + k2.len() + 1, q2 + k2.len() + 1 + v2.len() as int)[0] == v2[0]);
    }
    assert(p_string_or_null(s, q2 + k2.len() + 1) == Some(
        (Some(m.description), q2 + k2.len() + 1 + v2.len()),
    ));
    assert(p_field(s, q2 + k2.len() + 1, p0, "description"@) == Some(
        (pa, q2 + k2.len() + 1 + v2.len()),
    ));
    lemma_member_step(s, q2, "description"@, v2, p0, pa, true);
}

/// Reading the duration member: an unknown key whose string value is
/// skipped.
#[verifier::rlimit(100)]
proof fn lemma_read_duration_member(m: EventModel, now: DateTime, user: Option<Seq<char>>)
    ensures
        p_members(spec_encode(m, now, user), pos_duration(m, now), seen_description(m)) == p_members(
            spec_encode(m, now, user),
            pos_project(m, now),
            seen_description(m),
        ),
{
    reveal_strlit("description");
    reveal_strlit("duration");
    reveal_strlit("project");
    reveal_strlit("start");
    reveal_strlit("stop");
    reveal_strlit("tags");
    lemma_encoded_length(m, now, user);
    let s = spec_encode(m, now, user);
    let pa = seen_description(m);
    let q3 = pos_duration(m, now);
    let k3 = quoted("duration"@);
    let v3 = quoted(duration_text(shown_duration(m, now)));
    lemma_field_at(s, q3, k3, v3);
    lemma_member_skip_string(s, q3, "duration"@, duration_text(shown_duration(m, now)), pa, true);
}

/// Reading the project member.
#[verifier::rlimit(100)]
proof fn lemma_read_project_member(m: EventModel, now: DateTime, user: Option<Seq<char>>)
    ensures
        p_members(spec_encode(m, now, user), pos_project(m, now), seen_description(m)) == p_members(
            spec_encode(m, now, user),
            pos_seconds(m, now),
            seen_project(m),
        ),
{
    reveal_strlit("description");
    reveal_strlit("project");
    reveal_strlit("start");
    reveal_strlit("stop");
    reveal_strlit("tags");
    lemma_encoded_length(m, now, user);
    let s = spec_encode(m, now, user);
    let pa = seen_description(m);
    let pb = seen_project(m);
    let q4 = pos_project(m, now);
    let k4 = quoted("project"@);
    let v4 = quoted(m.project);
    lemma_field_at(s, q4, k4, v4);
    lemma_parse_quoted(s, q4 + k4.len() + 1, m.project);
    assert(s[q4 + k4.len() + 1] == '"') by {
        assert(s.subrange(q4 + k4.len() + 1, q4 + k4.len() + 1 + v4.len() as int)[0] == v4[0]);
    }
    assert(p_field(s, q4 + k4.len() + 1, pa, "project"@) == Some(
        (pb, q4 + k4.len() + 1 + v4.len()),
    ));
    lemma_member_step(s, q4, "project"@, v4, pa, pb, true);
}

/// Reading the second count: an unknown key whose number is skipped.
#[verifier::rlimit(100)]
proof fn lemma_read_seconds_member(m: EventModel, now: DateTime, user: Option<Seq<char>>)
    ensures
        p_members(spec_encode(m, now, user), pos_seconds(m, now), seen_project(m)) == p_members(
            spec_encode(m, now, user),
            pos_start(m, now),
            seen_project(m),
        ),
{
    reveal_strlit("description");
    reveal_strlit("project");
    reveal_strlit("seconds");
    reveal_strlit("start");
    reveal_strlit("stop");
    reveal_strlit("tags");
    lemma_encoded_length(m, now, user);
    let s = spec_encode(m, now, user);
    let pb = seen_project(m);
    let q5 = pos_seconds(m, now);
    let k5 = quoted("seconds"@);
    let v5 = int_text(model_duration(m, now));
    lemma_field_at(s, q5, k5, v5);
    lemma_int_text_chars(model_duration(m, now));
    let v50 = q5 + k5.len() as int + 1;
    assert forall|j: int| v50 <= j < v50 + v5.len() implies !is_delim(#[trigger] s[j]) && s[j]
        != '"' && s[j] != '{' && s[j] != '[' by {
        assert(s.subrange(v50, v50 + v5.len() as int)[j - v50] == v5[j - v50]);
    }
    assert(s[v50 + v5.len()] == ',');
    lemma_scalar_end_at(s, v50, v50 + v5.len() as int);
    assert(s[v50] == v5[0]) by {
        assert(s.subrange(v50, v50 + v5.len() as int)[0] == v5[0]);
    }
    assert(p_skip_value(s, v50) == Some(v50 + v5.len()));
    assert(p_field(s, v50, pb, "seconds"@) == Some((pb, v50 + v5.len())));
    lemma_member_step(s, q5, "seconds"@, v5, pb, pb, true);
}

/// Reading the start member.
#[verifier::rlimit(100)]
proof fn lemma_read_start_member(m: EventModel, now: DateTime, user: Option<Seq<char>>)
    ensures
        p_members(spec_encode(m, now, user), pos_start(m, now), seen_project(m)) == p_members(
            spec_encode(m, now, user),
            pos_stop(m, now),
            seen_start(m),
        ),
{
    reveal_strlit("description");
    reveal_strlit("project");
    reveal_strlit("start");
    reveal_strlit("stop");
    reveal_strlit("tags");
    lemma_encoded_length(m, now, user);
    let s = spec_encode(m, now, user);
    let pb = seen_project(m);
    let pc = seen_start(m);
    let q6 = pos_start(m, now);
    let k6 = quoted("start"@);
    let v6 = quoted(crate::datetime::fmt_rfc3339(m.start));
    lemma_field_at(s, q6, k6, v6);
    lemma_parse_quoted(s, q6 + k6.len() + 1, crate::datetime::fmt_rfc3339(m.start));
    assert(s[q6 + k6.len() + 1] == '"') by {
        assert(s.subrange(q6 + k6.len() + 1, q6 + k6.len() + 1 + v6.len() as int)[0] == v6[0]);
    }
    assert(p_field(s, q6 + k6.len() + 1, pb, "start"@) == Some(
        (pc, q6 + k6.len() + 1 + v6.len()),
    ));
    lemma_member_step(s, q6, "start"@, v6, pb, pc, true);
}

/// Reading the stop member while it is a timestamp.
#[verifier::rlimit(100)]
proof fn lemma_read_stop_member_some(m: EventModel, now: DateTime, user: Option<Seq<char>>)
    requires
        m.stop is Some,
    ensures
        p_members(spec_encode(m, now, user), pos_stop(m, now), seen_start(m)) == p_members(
            spec_encode(m, now, user),
            pos_tags(m, now),
            seen_stop(m),
        ),
{
    reveal_strlit("description");
    reveal_strlit("project");
    reveal_strlit("start");
    reveal_strlit("stop");
    reveal_strlit("tags");
    lemma_encoded_length(m, now, user);
    let s = spec_encode(m, now, user);
    let pc = seen_start(m);
    let pd = seen_stop(m);
    let q7 = pos_stop(m, now);
    let k7 = quoted("stop"@);
    let t = m.stop->Some_0;
    let v7 = quoted(crate::datetime::fmt_rfc3339(t));
    lemma_field_at(s, q7, k7, v7);
    let v70 = q7 + k7.len() as int + 1;
    lemma_parse_quoted(s, v70, crate::datetime::fmt_rfc3339(t));
    assert(s[v70] == '"') by {
        assert(s.subrange(v70, v70 + v7.len() as int)[0] == v7[0]);
    }
    assert(p_string_or_null(s, v70) == Some(
        (Some(crate::datetime::fmt_rfc3339(t)), v70 + v7.len()),
    ));
    assert(p_field(s, v70, pc, "stop"@) == Some((pd, v70 + v7.len())));
    lemma_member_step(s, q7, "stop"@, v7, pc, pd, true);
}

/// Reading the stop member while it is `null`.
#[verifier::rlimit(100)]
proof fn lemma_read_stop_member_null(m: EventModel, now: DateTime, user: Option<Seq<char>>)
    requires
        m.stop is None,
    ensures
        p_members(spec_encode(m, now, user), pos_stop(m, now), seen_start(m)) == p_members(
            spec_encode(m, now, user),
            pos_tags(m, now),
            seen_stop(m),
        ),
{
    reveal_strlit("description");
    reveal_strlit("project");
    reveal_strlit("start");
    reveal_strlit("stop");
    reveal_strlit("tags");
    reveal_strlit("null");
    lemma_encoded_length(m, now, user);
    let s = spec_encode(m, now, user);
    let pc = seen_start(m);
    let pd = seen_stop(m);
    let q7 = pos_stop(m, now);
    let k7 = quoted("stop"@);
    let v7 = "null"@;
    lemma_field_at(s, q7, k7, v7);
    let v70 = q7 + k7.len() as int + 1;
    assert forall|q: int| 0 <= q < 4 implies s[v70 + q] == "null"@[q] by {
        assert(s.subrange(v70, v70 + v7.len() as int)[q] == v7[q]);
    }
    assert(s[v70] == 'n');
    assert(null_at(s, v70));
    assert(p_string_or_null(s, v70) == Some((None::<Seq<char>>, v70 + 4)));
    assert(p_field(s, v70, pc, "stop"@) == Some((pd, v70 + v7.len())));
    lemma_member_step(s, q7, "stop"@, v7, pc, pd, true);
}

/// Reading an empty tags member.
#[verifier::rlimit(100)]
proof fn lemma_read_tags_member_empty(m: EventModel, now: DateTime, user: Option<Seq<char>>)
    requires
        m.tags.len() == 0,
    ensures
        p_members(spec_encode(m, now, user), pos_tags(m, now), seen_stop(m)) == p_members(
            spec_encode(m, now, user),
            pos_user(m, now),
            seen_all(m),
        ),
{
    reveal_strlit("description");
    reveal_strlit("project");
    reveal_strlit("start");
    reveal_strlit("stop");
    reveal_strlit("tags");
    lemma_encoded_length(m, now, user);
    let s = spec_encode(m, now, user);
    let pd = seen_stop(m);
    let pe = seen_all(m);
    let q8 = pos_tags(m, now);
    let k8 = quoted("tags"@);
    let v8 = seq!['['] + tags_text(m.tags) + seq![']'];
    lemma_field_at(s, q8, k8, v8);
    let v80 = q8 + k8.len() as int + 1;
    assert(s[v80] == '[') by {
        assert(s.subrange(v80, v80 + v8.len() as int)[0] == v8[0]);
    }
    let ttl = tags_text(m.tags).len() as int;
    assert(ttl == 0);
    assert(s[v80 + 1] == ']') by {
        assert(s.subrange(v80, v80 + v8.len() as int)[1] == v8[1]);
    }
    lemma_ws_at(s, v80 + 1);
    assert(p_string_array(s, v80) == Some((Seq::<Seq<char>>::empty(), v80 + 2)));
    assert(Seq::<Seq<char>>::empty() =~= m.tags);
    assert(p_string_array(s, v80) == Some((m.tags, v80 + v8.len())));
    assert(p_field(s, v80, pd, "tags"@) == Some((pe, v80 + v8.len())));
    lemma_member_step(s, q8, "tags"@, v8, pd, pe, true);
}

/// Reading a nonempty tags member.
#[verifier::rlimit(100)]
proof fn lemma_read_tags_member_items(m: EventModel, now: DateTime, user: Option<Seq<char>>)
    requires
        m.tags.len() > 0,
    ensures
        p_members(spec_encode(m, now, user), pos_tags(m, now), seen_stop(m)) == p_members(
            spec_encode(m, now, user),
            pos_user(m, now),
            seen_all(m),
        ),
{
    reveal_strlit("description");
    reveal_strlit("project");
    reveal_strlit("start");
    reveal_strlit("stop");
    reveal_strlit("tags");
    lemma_encoded_length(m, now, user);
    let s = spec_encode(m, now, user);
    let pd = seen_stop(m);
    let pe = seen_all(m);
    let q8 = pos_tags(m, now);
    let k8 = quoted("tags"@);
    let v8 = seq!['['] + tags_text(m.tags) + seq![']'];
    lemma_field_at(s, q8, k8, v8);
    let v80 = q8 + k8.len() as int + 1;
    assert(s[v80] == '[') by {
        assert(s.subrange(v80, v80 + v8.len() as int)[0] == v8[0]);
    }
    let ttl = tags_text(m.tags).len() as int;
    assert forall|q: int| 0 <= q < ttl implies s[v80 + 1 + q] == tags_text(m.tags)[q] by {
        assert(s.subrange(v80, v80 + v8.len() as int)[1 + q] == v8[1 + q]);
    }
    assert(s.subrange(v80 + 1, v80 + 1 + ttl) =~= tags_text(m.tags));
    assert(s[v80 + 1 + ttl] == ']') by {
        assert(s.subrange(v80, v80 + v8.len() as int)[1 + ttl] == v8[1 + ttl]);
    }
    lemma_parse_tag_list(s, v80 + 1, m.tags);
    assert(s[v80 + 1] == '"') by {
        assert(tags_text(m.tags)[0] == quoted(m.tags[0])[0]);
    }
    lemma_ws_at(s, v80 + 1);
    assert(p_string_array(s, v80) == Some((m.tags, v80 + v8.len())));
    assert(p_field(s, v80, pd, "tags"@) == Some((pe, v80 + v8.len())));
    lemma_member_step(s, q8, "tags"@, v8, pd, pe, true);
}

/// Reading the user member while it is a string: an unknown key whose
/// value is skipped, closing the object.
#[verifier::rlimit(100)]
proof fn lemma_read_user_member_some(m: EventModel, now: DateTime, user: Option<Seq<char>>)
    requires
        user is Some,
    ensures
        p_members(spec_encode(m, now, user), pos_user(m, now), seen_all(m)) == Some(
            (seen_all(m), pos_end(m, now, user)),
        ),
{
    reveal_strlit("description");
    reveal_strlit("project");
    reveal_strlit("start");
    reveal_strlit("stop");
    reveal_strlit("tags");
    reveal_strlit("user");
    lemma_encoded_length(m, now, user);
    let s = spec_encode(m, now, user);
    let pe = seen_all(m);
    let q9 = pos_user(m, now);
    let k9 = quoted("user"@);
    let u = user->Some_0;
    let v9 = quoted(u);
    lemma_field_at(s, q9, k9, v9);
    lemma_member_skip_string(s, q9, "user"@, u, pe, false);
}

/// Reading the user member while it is `null`: an unknown key whose
/// value is skipped, closing the object.
#[verifier::rlimit(100)]
proof fn lemma_read_user_member_null(m: EventModel, now: DateTime, user: Option<Seq<char>>)
    requires
        user is None,
    ensures
        p_members(spec_encode(m, now, user), pos_user(m, now), seen_all(m)) == Some(
            (seen_all(m), pos_end(m, now, user)),
        ),
{
    reveal_strlit("description");
    reveal_strlit("project");
    reveal_strlit("start");
    reveal_strlit("stop");
    reveal_strlit("tags");
    reveal_strlit("user");
    reveal_strlit("null");
    lemma_encoded_length(m, now, user);
    let s = spec_encode(m, now, user);
    let pe = seen_all(m);
    let q9 = pos_user(m, now);
    let k9 = quoted("user"@);
    let v9 = "null"@;
    lemma_field_at(s, q9, k9, v9);
    let v90 = q9 + k9.len() as int + 1;
    assert forall|q: int| 0 <= q < 4 implies s[v90 + q] == "null"@[q] by {
        assert(s.subrange(v90, v90 + v9.len() as int)[q] == v9[q]);
    }
    assert(s[v90 + 4] == '}');
    assert forall|j: int| v90 <= j < v90 + 4 implies !is_delim(#[trigger] s[j]) by {
        assert(s[j] == "null"@[j - v90]);
    }
    lemma_scalar_end_at(s, v90, v90 + 4);
    assert(s[v90] == 'n');
    assert(p_skip_value(s, v90) == Some(v90 + 4));
    assert(p_field(s, v90, pe, "user"@) == Some((pe, v90 + v9.len())));
    lemma_member_step(s, q9, "user"@, v9, pe, pe, false);
}

/// A record this library writes reads back as exactly the event it was
/// written from: the codec round-trips every well-formed event, whatever
/// reference time and user name the informational fields were written
/// with.
#[verifier::rlimit(100)]
pub proof fn lemma_record_round_trip(m: EventModel, now: DateTime, user: Option<Seq<char>>)
    requires
        m.wf(),
    ensures
        spec_decode(spec_encode(m, now, user)) == Some(m),
{
    reveal_strlit("__CLASS__");
    lemma_encoded_length(m, now, user);
    let s = spec_encode(m, now, user);
    lemma_read_class_member(m, now, user);
    lemma_read_description_member(m, now, user);
    lemma_read_duration_member(m, now, user);
    lemma_read_project_member(m, now, user);
    lemma_read_seconds_member(m, now, user);
    lemma_read_start_member(m, now, user);
    match m.stop {
        Some(t) => {
            lemma_read_stop_member_some(m, now, user);
        },
        None => {
            lemma_read_stop_member_null(m, now, user);
        },
    }
    if m.tags.len() == 0 {
        lemma_read_tags_member_empty(m, now, user);
    } else {
        lemma_read_tags_member_items(m, now, user);
    }
    match user {
        Some(u) => {
            lemma_read_user_member_some(m, now, user);
        },
        None => {
            lemma_read_user_member_null(m, now, user);
        },
    }
    let pe = seen_all(m);
    let qe = pos_end(m, now, user);
    assert(p_members(s, 1, empty_partial()) == Some((pe, qe)));
    assert(s[0] == '{');
    lemma_ws_at(s, 0);
    let k1 = quoted("__CLASS__"@);
    assert(s[1] == '"') by {
        assert(s.subrange(1, 1 + k1.len() as int) =~= k1) by {
            assert forall|q: int| 0 <= q < k1.len() implies s.subrange(1, 1 + k1.len() as int)[q]
                == k1[q] by {
                assert(s[1 + q] == enc_class_field()[q]);
            }
        }
        assert(s.subrange(1, 1 + k1.len() as int)[0] == k1[0]);
    }
    lemma_ws_at(s, 1);
    assert(p_record(s) == Some((pe, qe)));
    assert(qe == s.len());
    lemma_ws_at(s, qe);
    crate::datetime::lemma_rfc3339_round_trip(m.start);
    match m.stop {
        Some(t) => {
            crate::datetime::lemma_rfc3339_round_trip(t);
        },
        None => {},
    }
    assert(validate(pe) == Some(m));
}

/// Establishes the in-object layout facts of one written field: its key
/// text, the colon, its value text, and the following separator.
#[verifier::rlimit(100)]
proof fn lemma_field_at(s: Seq<char>, pos: int, k: Seq<char>, v: Seq<char>)
    requires
        0 <= pos,
        pos + k.len() + 1 + v.len() < s.len(),
        forall|q: int| 0 <= q < k.len() ==> s[pos + q] == k[q],
        s[pos + k.len()] == ':',
        forall|q: int| 0 <= q < v.len() ==> s[pos + k.len() + 1 + q] == v[q],
    ensures
        s.subrange(pos, pos + k.len() as int) == k,
        s.subrange(pos + k.len() + 1, pos + k.len() + 1 + v.len() as int) == v,
{
    assert(s.subrange(pos, pos + k.len() as int) =~= k);
    assert(s.subrange(pos + k.len() + 1, pos + k.len() + 1 + v.len() as int) =~= v);
}

} // verus!
