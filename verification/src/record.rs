//! The on-disk record codec: one JSON object per event file, written
//! compactly and read back tolerantly (any field order, surrounding
//! whitespace, unknown fields ignored, legacy fields optional).

use vstd::prelude::*;

verus! {

use crate::datetime::{DateTime, fmt_rfc3339, total_seconds};
use crate::event::Event;
use crate::text::{digit_char, is_digit, string_from_chars, chars_of_str, digit_exec};

/// The mathematical content of an event record.
pub struct EventModel {
    pub project: Seq<char>,
    pub description: Seq<char>,
    pub tags: Seq<Seq<char>>,
    pub start: DateTime,
    pub stop: Option<DateTime>,
}

/// The model of an executable event.
pub open spec fn event_model(e: Event) -> EventModel {
    EventModel {
        project: e.project@,
        description: e.description@,
        tags: e.tags.deep_view(),
        start: e.start,
        stop: e.stop,
    }
}

impl EventModel {
    /// Start and, when present, stop are valid date-times.
    pub open spec fn wf(self) -> bool {
        &&& self.start.wf()
        &&& match self.stop {
            Some(t) => t.wf(),
            None => true,
        }
    }
}

/// Lower-case hexadecimal digit for a value below sixteen.
pub open spec fn hex_char(d: int) -> char {
    if d < 10 {
        digit_char(d)
    } else {
        ((87 + d) as u8) as char
    }
}

/// How one character is written inside a JSON string: quote, backslash
/// and the named control characters get a two-character escape, the
/// remaining control characters a `\u00..` escape, everything else
/// stands for itself.
pub open spec fn escape_char(c: char) -> Seq<char> {
    if c == '"' {
        seq!['\\', '"']
    } else if c == '\\' {
        seq!['\\', '\\']
    } else if c == '\n' {
        seq!['\\', 'n']
    } else if c == '\r' {
        seq!['\\', 'r']
    } else if c == '\t' {
        seq!['\\', 't']
    } else if c == '\u{8}' {
        seq!['\\', 'b']
    } else if c == '\u{c}' {
        seq!['\\', 'f']
    } else if (c as int) < 0x20 {
        seq!['\\', 'u', '0', '0', hex_char(c as int / 16), hex_char(c as int % 16)]
    } else {
        seq![c]
    }
}

/// A text with each character escaped as JSON requires.
pub open spec fn escape_string(s: Seq<char>) -> Seq<char>
    decreases s.len(),
{
    if s.len() == 0 {
        Seq::empty()
    } else {
        escape_char(s[0]) + escape_string(s.drop_first())
    }
}

/// A JSON string literal for the text.
pub open spec fn quoted(s: Seq<char>) -> Seq<char> {
    seq!['"'] + escape_string(s) + seq!['"']
}

/// Escaping distributes over appending one character.
pub proof fn lemma_escape_snoc(s: Seq<char>, c: char)
    ensures
        escape_string(s.push(c)) == escape_string(s) + escape_char(c),
    decreases s.len(),
{
    let p = s.push(c);
    if s.len() == 0 {
        assert(p[0] == c);
        assert(p.drop_first() =~= Seq::<char>::empty());
        assert(escape_string(Seq::<char>::empty()) == Seq::<char>::empty());
        assert(escape_char(c) + Seq::<char>::empty() =~= escape_char(c));
        assert(Seq::<char>::empty() + escape_char(c) =~= escape_char(c));
    } else {
        assert(p[0] == s[0]);
        assert(p.drop_first() =~= s.drop_first().push(c));
        lemma_escape_snoc(s.drop_first(), c);
        assert(escape_char(s[0]) + (escape_string(s.drop_first()) + escape_char(c)) =~= (
        escape_char(s[0]) + escape_string(s.drop_first())) + escape_char(c));
    }
}

/// Appends the escaped form of one character.
fn push_escaped_char(v: &mut Vec<char>, c: char)
    ensures
        final(v)@ == old(v)@ + escape_char(c),
{
    if c == '"' {
        v.push('\\');
        v.push('"');
    } else if c == '\\' {
        v.push('\\');
        v.push('\\');
    } else if c == '\n' {
        v.push('\\');
        v.push('n');
    } else if c == '\r' {
        v.push('\\');
        v.push('r');
    } else if c == '\t' {
        v.push('\\');
        v.push('t');
    } else if c == '\u{8}' {
        v.push('\\');
        v.push('b');
    } else if c == '\u{c}' {
        v.push('\\');
        v.push('f');
    } else if (c as u32) < 0x20 {
        let u = c as u32;
        v.push('\\');
        v.push('u');
        v.push('0');
        v.push('0');
        v.push(hex_exec((u / 16) as u8));
        v.push(hex_exec((u % 16) as u8));
    } else {
        v.push(c);
    }
    proof {
        assert(v@ =~= old(v)@ + escape_char(c));
    }
}

/// The lower-case hexadecimal digit character.
fn hex_exec(d: u8) -> (c: char)
    requires
        d < 16,
    ensures
        c == hex_char(d as int),
{
    if d < 10 {
        digit_exec(d)
    } else {
        (87 + d) as char
    }
}

/// Appends a JSON string literal for the text.
fn push_quoted(v: &mut Vec<char>, s: &str)
    ensures
        final(v)@ == old(v)@ + quoted(s@),
{
    v.push('"');
    let cs = chars_of_str(s);
    let n = cs.len();
    let ghost base = v@;
    let mut i: usize = 0;
    proof {
        assert(s@.take(0) =~= Seq::<char>::empty());
        assert(base + escape_string(s@.take(0)) =~= base);
    }
    while i < n
        invariant
            i <= n,
            n == s@.len(),
            cs@ == s@,
            v@ == base + escape_string(s@.take(i as int)),
        decreases n - i,
    {
        proof {
            lemma_escape_snoc(s@.take(i as int), s@[i as int]);
            assert(s@.take(i as int).push(s@[i as int]) =~= s@.take(i as int + 1));
        }
        push_escaped_char(v, cs[i]);
        i = i + 1;
    }
    v.push('"');
    proof {
        assert(s@.take(n as int) =~= s@);
        assert(v@ =~= old(v)@ + quoted(s@));
    }
}

/// The decimal digits of a nonnegative number, most significant first,
/// without leading zeros.
#[verifier::opaque]
pub open spec fn dec_digits(n: int) -> Seq<char>
    decreases n,
{
    if n < 10 {
        seq![digit_char(n)]
    } else {
        dec_digits(n / 10) + seq![digit_char(n % 10)]
    }
}

/// The decimal rendering of a possibly negative number.
#[verifier::opaque]
pub open spec fn int_text(n: int) -> Seq<char> {
    if n < 0 {
        seq!['-'] + dec_digits(-n)
    } else {
        dec_digits(n)
    }
}

/// Appends the decimal digits of `n`.
fn push_u64_dec(v: &mut Vec<char>, n: u64)
    ensures
        final(v)@ == old(v)@ + dec_digits(n as int),
    decreases n,
{
    if n < 10 {
        v.push(digit_exec(n as u8));
        proof {
            reveal(dec_digits);
            assert(v@ =~= old(v)@ + dec_digits(n as int));
        }
    } else {
        push_u64_dec(v, n / 10);
        v.push(digit_exec((n % 10) as u8));
        proof {
            reveal(dec_digits);
            assert(v@ =~= old(v)@ + dec_digits(n as int));
        }
    }
}

/// Appends the decimal rendering of `n`.
fn push_i64_dec(v: &mut Vec<char>, n: i64)
    requires
        n > i64::MIN,
    ensures
        final(v)@ == old(v)@ + int_text(n as int),
{
    if n < 0 {
        v.push('-');
        push_u64_dec(v, (-n) as u64);
        proof {
            reveal(int_text);
            assert(v@ =~= old(v)@ + int_text(n as int));
        }
    } else {
        push_u64_dec(v, n as u64);
        proof {
            reveal(int_text);
        }
    }
}

/// A number zero-padded to at least two digits.
#[verifier::opaque]
pub open spec fn pad2(n: int) -> Seq<char> {
    if n < 10 {
        seq!['0', digit_char(n)]
    } else {
        dec_digits(n)
    }
}

/// Appends the zero-padded rendering of `n`.
fn push_pad2(v: &mut Vec<char>, n: u64)
    ensures
        final(v)@ == old(v)@ + pad2(n as int),
{
    if n < 10 {
        v.push('0');
        v.push(digit_exec(n as u8));
        proof {
            reveal(pad2);
            assert(v@ =~= old(v)@ + pad2(n as int));
        }
    } else {
        push_u64_dec(v, n);
        proof {
            reveal(pad2);
        }
    }
}

/// The legacy `HH:MM:SS` rendering of a nonnegative duration.
#[verifier::opaque]
pub open spec fn duration_text(d: int) -> Seq<char> {
    pad2(d / 3600) + seq![':'] + pad2((d / 60) % 60) + seq![':'] + pad2(d % 60)
}

/// The tag texts as a comma-separated list of JSON strings.
pub open spec fn tags_text(tags: Seq<Seq<char>>) -> Seq<char>
    decreases tags.len(),
{
    if tags.len() == 0 {
        Seq::empty()
    } else if tags.len() == 1 {
        quoted(tags[0])
    } else {
        quoted(tags[0]) + seq![','] + tags_text(tags.drop_first())
    }
}

/// The signed duration the record's informational fields report,
/// measured against `now` while the event is open.
#[verifier::opaque]
pub open spec fn model_duration(m: EventModel, now: DateTime) -> int {
    total_seconds(
        match m.stop {
            Some(t) => t,
            None => now,
        },
    ) - total_seconds(m.start)
}

/// The duration shown in the record, clamped at zero.
pub open spec fn shown_duration(m: EventModel, now: DateTime) -> int {
    let secs = model_duration(m, now);
    if secs < 0 {
        0int
    } else {
        secs
    }
}

/// The legacy class-tag member.
pub open spec fn enc_class_field() -> Seq<char> {
    quoted("__CLASS__"@) + seq![':'] + quoted("App::TimeTracker::Data::Task"@) + seq![',']
}

/// The description member.
pub open spec fn enc_description_field(m: EventModel) -> Seq<char> {
    quoted("description"@) + seq![':'] + quoted(m.description) + seq![',']
}

/// The informational duration member.
pub open spec fn enc_duration_field(m: EventModel, now: DateTime) -> Seq<char> {
    quoted("duration"@) + seq![':'] + quoted(duration_text(shown_duration(m, now))) + seq![',']
}

/// The project member.
pub open spec fn enc_project_field(m: EventModel) -> Seq<char> {
    quoted("project"@) + seq![':'] + quoted(m.project) + seq![',']
}

/// The informational second-count member.
pub open spec fn enc_seconds_field(m: EventModel, now: DateTime) -> Seq<char> {
    quoted("seconds"@) + seq![':'] + int_text(model_duration(m, now)) + seq![',']
}

/// The start member.
pub open spec fn enc_start_field(m: EventModel) -> Seq<char> {
    quoted("start"@) + seq![':'] + quoted(fmt_rfc3339(m.start)) + seq![',']
}

/// The stop member: a timestamp, or `null` while the event is open.
pub open spec fn enc_stop_field(m: EventModel) -> Seq<char> {
    quoted("stop"@) + seq![':'] + (match m.stop {
        Some(t) => quoted(fmt_rfc3339(t)),
        None => "null"@,
    }) + seq![',']
}

/// The tags member.
pub open spec fn enc_tags_field(m: EventModel) -> Seq<char> {
    quoted("tags"@) + seq![':'] + (seq!['['] + tags_text(m.tags) + seq![']']) + seq![',']
}

/// The informational user member, which also closes the object.
pub open spec fn enc_user_field(user: Option<Seq<char>>) -> Seq<char> {
    quoted("user"@) + seq![':'] + (match user {
        Some(u) => quoted(u),
        None => "null"@,
    }) + seq!['}']
}

/// The record text this library writes for an event: a compact JSON
/// object in fixed field order. The `__CLASS__`, `duration`, `seconds`
/// and `user` fields are informational only and ignored on read; a
/// negative duration is displayed as zero.
pub open spec fn spec_encode(m: EventModel, now: DateTime, user: Option<Seq<char>>) -> Seq<char> {
    seq!['{'] + enc_class_field() + enc_description_field(m) + enc_duration_field(m, now)
        + enc_project_field(m) + enc_seconds_field(m, now) + enc_start_field(m) + enc_stop_field(
        m,
    ) + enc_tags_field(m) + enc_user_field(user)
}

/// Zero-padded numbers consist of digits.
pub proof fn lemma_pad2_digits(n: int)
    requires
        n >= 0,
    ensures
        forall|j: int| 0 <= j < pad2(n).len() ==> is_digit(#[trigger] pad2(n)[j]),
        pad2(n).len() >= 1,
{
    reveal(pad2);
    reveal(dec_digits);
    if n < 10 {
        crate::text::lemma_digit_char_val(0);
        crate::text::lemma_digit_char_val(n);
        assert forall|j: int| 0 <= j < pad2(n).len() implies is_digit(#[trigger] pad2(n)[j]) by {
            if j == 0 {
                assert(pad2(n)[0] == '0');
            } else {
                assert(pad2(n)[1] == digit_char(n));
            }
        }
    } else {
        lemma_dec_digits_digits(n);
    }
}

/// Decimal digit runs contain only digits.
pub proof fn lemma_dec_digits_digits(n: int)
    requires
        n >= 0,
    ensures
        forall|j: int| 0 <= j < dec_digits(n).len() ==> is_digit(#[trigger] dec_digits(n)[j]),
        dec_digits(n).len() >= 1,
    decreases n,
{
    reveal(dec_digits);
    if n < 10 {
        crate::text::lemma_digit_char_val(n);
    } else {
        lemma_dec_digits_digits(n / 10);
        crate::text::lemma_digit_char_val(n % 10);
        assert forall|j: int| 0 <= j < dec_digits(n).len() implies is_digit(
            #[trigger] dec_digits(n)[j],
        ) by {
            if j < dec_digits(n / 10).len() {
                assert(dec_digits(n)[j] == dec_digits(n / 10)[j]);
            } else {
                assert(dec_digits(n)[j] == digit_char(n % 10));
            }
        }
    }
}

/// The duration rendering holds only digits and colons, all of which
/// escape to themselves.
pub proof fn lemma_duration_text_plain(dd: int)
    requires
        dd >= 0,
    ensures
        escape_string(duration_text(dd)) == duration_text(dd),
{
    reveal(duration_text);
    lemma_pad2_digits(dd / 3600);
    lemma_pad2_digits((dd / 60) % 60);
    lemma_pad2_digits(dd % 60);
    let a = pad2(dd / 3600);
    let b = pad2((dd / 60) % 60);
    let c = pad2(dd % 60);
    let t = duration_text(dd);
    assert forall|j: int|
        0 <= j < t.len() implies (#[trigger] t[j]) as int >= 0x20 && t[j] != '"' && t[j]
        != '\\' by {
        let al = a.len() as int;
        let bl = b.len() as int;
        if j < al {
            assert(t[j] == a[j]);
        } else if j == al {
            assert(t[j] == ':');
        } else if j < al + 1 + bl {
            assert(t[j] == b[j - al - 1]);
        } else if j == al + 1 + bl {
            assert(t[j] == ':');
        } else {
            assert(t[j] == c[j - al - 1 - bl - 1]);
        }
    }
    lemma_escape_all_plain(t);
}

/// Texts of characters at or above the space, other than quote and
/// backslash, escape to themselves.
pub proof fn lemma_escape_all_plain(x: Seq<char>)
    requires
        forall|j: int|
            0 <= j < x.len() ==> (#[trigger] x[j]) as int >= 0x20 && x[j] != '"' && x[j] != '\\',
    ensures
        escape_string(x) == x,
    decreases x.len(),
{
    if x.len() > 0 {
        assert(escape_char(x[0]) == seq![x[0]]);
        lemma_escape_all_plain(x.drop_first());
        assert(seq![x[0]] + x.drop_first() =~= x);
    }
}

/// Appends one character, as a one-element sequence.
fn push_lit(v: &mut Vec<char>, c: char)
    ensures
        final(v)@ == old(v)@ + seq![c],
{
    v.push(c);
    proof {
        assert(v@ =~= old(v)@ + seq![c]);
    }
}

/// Appends the word `null`.
fn push_null(v: &mut Vec<char>)
    ensures
        final(v)@ == old(v)@ + "null"@,
{
    v.push('n');
    v.push('u');
    v.push('l');
    v.push('l');
    proof {
        reveal_strlit("null");
        assert(v@ =~= old(v)@ + "null"@);
    }
}

/// Appends the legacy `HH:MM:SS` rendering of a nonnegative duration.
fn push_duration(v: &mut Vec<char>, d: u64)
    ensures
        final(v)@ == old(v)@ + duration_text(d as int),
{
    push_pad2(v, d / 3600);
    v.push(':');
    push_pad2(v, (d / 60) % 60);
    v.push(':');
    push_pad2(v, d % 60);
    proof {
        reveal(duration_text);
        assert(v@ =~= old(v)@ + duration_text(d as int));
    }
}

/// Appends the comma-separated list of JSON strings for the tags.
fn push_tags(v: &mut Vec<char>, tags: &Vec<String>)
    ensures
        final(v)@ == old(v)@ + tags_text(tags.deep_view()),
{
    let ghost tags_model = tags.deep_view();
    let nt = tags.len();
    let mut k: usize = 0;
    let ghost tag_base = v@;
    while k < nt
        invariant
            k <= nt,
            nt == tags@.len(),
            tags_model == tags.deep_view(),
            k == 0 ==> v@ == tag_base,
            k > 0 ==> v@ == tag_base + tags_text(tags_model.take(k as int)) + (if k < nt {
                seq![',']
            } else {
                Seq::<char>::empty()
            }),
        decreases nt - k,
    {
        let ghost prior = v@;
        push_quoted(v, tags[k].as_str());
        proof {
            assert(tags@[k as int]@ == tags_model[k as int]);
            lemma_tags_text_take_step(tags_model, k as int);
            if k == 0 {
                assert(v@ =~= tag_base + tags_text(tags_model.take(1)) + (if k + 1 < nt {
                    Seq::<char>::empty()
                } else {
                    Seq::<char>::empty()
                }));
            }
        }
        if k + 1 < nt {
            v.push(',');
            proof {
                assert(v@ =~= tag_base + tags_text(tags_model.take(k as int + 1)) + seq![',']);
            }
        } else {
            proof {
                assert(v@ =~= tag_base + tags_text(tags_model.take(k as int + 1))
                    + Seq::<char>::empty());
            }
        }
        k = k + 1;
    }
    proof {
        if nt == 0 {
            assert(tags_text(tags_model) == Seq::<char>::empty());
            assert(v@ =~= tag_base + tags_text(tags_model));
        } else {
            assert(tags_model.take(nt as int) =~= tags_model);
            assert(v@ =~= tag_base + tags_text(tags_model));
        }
    }
}

/// Appends one string-valued member and its trailing comma.
fn push_member_str(v: &mut Vec<char>, key: &str, val: &str)
    ensures
        final(v)@ == old(v)@ + (quoted(key@) + seq![':'] + quoted(val@) + seq![',']),
{
    push_quoted(v, key);
    push_lit(v, ':');
    push_quoted(v, val);
    push_lit(v, ',');
    proof {
        assert(v@ =~= old(v)@ + (quoted(key@) + seq![':'] + quoted(val@) + seq![',']));
    }
}

/// Appends the informational duration member.
fn push_member_duration(v: &mut Vec<char>, d: u64)
    ensures
        final(v)@ == old(v)@ + (quoted("duration"@) + seq![':'] + quoted(
            duration_text(d as int),
        ) + seq![',']),
{
    push_quoted(v, "duration");
    push_lit(v, ':');
    push_lit(v, '"');
    push_duration(v, d);
    push_lit(v, '"');
    push_lit(v, ',');
    proof {
        lemma_duration_text_plain(d as int);
        assert(quoted(duration_text(d as int)) =~= seq!['"'] + duration_text(d as int)
            + seq!['"']);
        assert(v@ =~= old(v)@ + (quoted("duration"@) + seq![':'] + quoted(duration_text(d as int))
            + seq![',']));
    }
}

/// Appends the informational second-count member.
fn push_member_seconds(v: &mut Vec<char>, secs: i64)
    requires
        secs > i64::MIN,
    ensures
        final(v)@ == old(v)@ + (quoted("seconds"@) + seq![':'] + int_text(secs as int)
            + seq![',']),
{
    push_quoted(v, "seconds");
    push_lit(v, ':');
    push_i64_dec(v, secs);
    push_lit(v, ',');
    proof {
        assert(v@ =~= old(v)@ + (quoted("seconds"@) + seq![':'] + int_text(secs as int)
            + seq![',']));
    }
}

/// Appends the stop member: a timestamp, or `null` while open.
fn push_member_stop(v: &mut Vec<char>, stop: &Option<DateTime>)
    requires
        match stop {
            Some(t) => t.wf(),
            None => true,
        },
    ensures
        final(v)@ == old(v)@ + (quoted("stop"@) + seq![':'] + (match stop {
            Some(t) => quoted(fmt_rfc3339(*t)),
            None => "null"@,
        }) + seq![',']),
{
    push_quoted(v, "stop");
    push_lit(v, ':');
    match stop {
        Some(t) => {
            let text = t.format_rfc3339();
            push_quoted(v, text.as_str());
        },
        None => {
            push_null(v);
        },
    }
    push_lit(v, ',');
    proof {
        assert(v@ =~= old(v)@ + (quoted("stop"@) + seq![':'] + (match stop {
            Some(t) => quoted(fmt_rfc3339(*t)),
            None => "null"@,
        }) + seq![',']));
    }
}

/// Appends the tags member.
fn push_member_tags(v: &mut Vec<char>, tags: &Vec<String>)
    ensures
        final(v)@ == old(v)@ + (quoted("tags"@) + seq![':'] + (seq!['['] + tags_text(
            tags.deep_view(),
        ) + seq![']']) + seq![',']),
{
    push_quoted(v, "tags");
    push_lit(v, ':');
    push_lit(v, '[');
    push_tags(v, tags);
    push_lit(v, ']');
    push_lit(v, ',');
    proof {
        assert(v@ =~= old(v)@ + (quoted("tags"@) + seq![':'] + (seq!['['] + tags_text(
            tags.deep_view(),
        ) + seq![']']) + seq![',']));
    }
}

/// Appends the informational user member and the closing brace.
fn push_member_user(v: &mut Vec<char>, user: Option<&String>)
    ensures
        final(v)@ == old(v)@ + (quoted("user"@) + seq![':'] + (match user {
            Some(u) => quoted(u@),
            None => "null"@,
        }) + seq!['}']),
{
    push_quoted(v, "user");
    push_lit(v, ':');
    match user {
        Some(u) => {
            push_quoted(v, u.as_str());
        },
        None => {
            push_null(v);
        },
    }
    push_lit(v, '}');
    proof {
        assert(v@ =~= old(v)@ + (quoted("user"@) + seq![':'] + (match user {
            Some(u) => quoted(u@),
            None => "null"@,
        }) + seq!['}']));
    }
}

/// Writes the on-disk record text for an event.
pub fn encode_record(e: &Event, now: &DateTime, user: Option<&String>) -> (r: String)
    requires
        e.wf(),
        now.wf(),
    ensures
        r@ == spec_encode(
            event_model(*e),
            *now,
            match user {
                Some(u) => Some(u@),
                None => None,
            },
        ),
{
    proof {
        reveal(model_duration);
    }
    let ghost m = event_model(*e);
    let ghost uv: Option<Seq<char>> = match user {
        Some(u) => Some(u@),
        None => None,
    };
    let secs = e.duration_seconds(now);
    let d: u64 = if secs < 0 {
        0
    } else {
        secs as u64
    };
    proof {
        crate::datetime::lemma_total_seconds_bound(e.start);
        crate::datetime::lemma_total_seconds_bound(e.spec_effective_stop(*now));
        assert(secs as int == model_duration(m, *now));
        assert(d as int == shown_duration(m, *now));
    }
    let mut v: Vec<char> = Vec::new();
    v.push('{');
    proof {
        assert(v@ =~= seq!['{']);
    }
    push_member_str(&mut v, "__CLASS__", "App::TimeTracker::Data::Task");
    proof {
        assert(v@ == seq!['{'] + enc_class_field());
    }
    push_member_str(&mut v, "description", e.description.as_str());
    proof {
        assert(v@ == seq!['{'] + enc_class_field() + enc_description_field(m));
    }
    push_member_duration(&mut v, d);
    push_member_str(&mut v, "project", e.project.as_str());
    push_member_seconds(&mut v, secs);
    let start_text = e.start.format_rfc3339();
    push_member_str(&mut v, "start", start_text.as_str());
    push_member_stop(&mut v, &e.stop);
    push_member_tags(&mut v, &e.tags);
    push_member_user(&mut v, user);
    proof {
        assert(v@ == spec_encode(m, *now, uv));
    }
    string_from_chars(&v)
}

/// One step of the comma-separated tag list.
proof fn lemma_tags_text_take_step(tags: Seq<Seq<char>>, k: int)
    requires
        0 <= k < tags.len(),
    ensures
        k == 0 ==> tags_text(tags.take(1)) == quoted(tags[0]),
        k > 0 ==> tags_text(tags.take(k + 1)) == tags_text(tags.take(k)) + seq![','] + quoted(
            tags[k],
        ),
{
    lemma_tags_text_snoc(tags.take(k), tags[k]);
    assert(tags.take(k).push(tags[k]) =~= tags.take(k + 1));
}

/// Appending one tag extends the comma-separated list.
proof fn lemma_tags_text_snoc(s: Seq<Seq<char>>, x: Seq<char>)
    ensures
        s.len() == 0 ==> tags_text(s.push(x)) == quoted(x),
        s.len() > 0 ==> tags_text(s.push(x)) == tags_text(s) + seq![','] + quoted(x),
    decreases s.len(),
{
    let p = s.push(x);
    if s.len() == 0 {
        assert(p.len() == 1);
        assert(p[0] == x);
    } else {
        assert(p[0] == s[0]);
        assert(p.drop_first() =~= s.drop_first().push(x));
        lemma_tags_text_snoc(s.drop_first(), x);
        if s.len() == 1 {
            assert(tags_text(p) == quoted(p[0]) + seq![','] + tags_text(p.drop_first()));
            assert(tags_text(p.drop_first()) == quoted(x));
            assert(tags_text(s) == quoted(s[0]));
        } else {
            assert(tags_text(p) == quoted(p[0]) + seq![','] + tags_text(p.drop_first()));
            assert(tags_text(p.drop_first()) == tags_text(s.drop_first()) + seq![','] + quoted(x));
            assert(tags_text(s) == quoted(s[0]) + seq![','] + tags_text(s.drop_first()));
            assert(quoted(s[0]) + seq![','] + (tags_text(s.drop_first()) + seq![','] + quoted(x))
                =~= (quoted(s[0]) + seq![','] + tags_text(s.drop_first())) + seq![','] + quoted(x));
        }
    }
}

} // verus!
