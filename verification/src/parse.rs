//! The tolerant reader of record text: a JSON parser for the event
//! record shape. It accepts any field order and surrounding whitespace,
//! requires `project`, `start` and `tags`, treats `description` and
//! `stop` as optional, and skips the value of any other field.

use vstd::prelude::*;

verus! {

use crate::datetime::{DateTime, rfc3339_valid, rfc3339_value, parse_rfc3339};
use crate::errors::TrackError;
use crate::event::Event;
use crate::record::{EventModel, event_model};
use crate::text::{
    is_digit, digit_val, char_of, code_of, char_from_code, lemma_char_of, string_from_chars,
    chars_of_str,
};

/// JSON whitespace.
pub open spec fn is_json_ws(c: char) -> bool {
    c == ' ' || c == '\t' || c == '\n' || c == '\r'
}

/// The first index at or after `i` holding something other than JSON
/// whitespace, or the length.
pub open spec fn ws(s: Seq<char>, i: int) -> int
    decreases s.len() - i,
{
    if 0 <= i && i < s.len() && is_json_ws(s[i]) {
        ws(s, i + 1)
    } else {
        i
    }
}

/// Skipping whitespace never moves backwards nor beyond the end.
pub proof fn lemma_ws_bounds(s: Seq<char>, i: int)
    ensures
        ws(s, i) >= i,
        i <= s.len() ==> ws(s, i) <= s.len(),
        0 <= i && ws(s, i) < s.len() ==> !is_json_ws(s[ws(s, i)]),
    decreases s.len() - i,
{
    if 0 <= i && i < s.len() && is_json_ws(s[i]) {
        lemma_ws_bounds(s, i + 1);
    }
}

/// A hexadecimal digit.
pub open spec fn is_hex(c: char) -> bool {
    is_digit(c) || (97 <= c as int <= 102) || (65 <= c as int <= 70)
}

/// The value of a hexadecimal digit.
pub open spec fn hex_val(c: char) -> int {
    if is_digit(c) {
        digit_val(c)
    } else if 97 <= c as int {
        c as int - 87
    } else {
        c as int - 55
    }
}

/// The value of the four hexadecimal digits at `i`, when they are there.
pub open spec fn p_hex4(s: Seq<char>, i: int) -> Option<int> {
    if 0 <= i && i + 4 <= s.len() && is_hex(s[i]) && is_hex(s[i + 1]) && is_hex(s[i + 2]) && is_hex(
        s[i + 3],
    ) {
        Some(hex_val(s[i]) * 4096 + hex_val(s[i + 1]) * 256 + hex_val(s[i + 2]) * 16 + hex_val(
            s[i + 3],
        ))
    } else {
        None
    }
}

/// What a two-character escape stands for.
pub open spec fn esc_map(e: char) -> Option<char> {
    if e == '"' {
        Some('"')
    } else if e == '\\' {
        Some('\\')
    } else if e == '/' {
        Some('/')
    } else if e == 'n' {
        Some('\n')
    } else if e == 'r' {
        Some('\r')
    } else if e == 't' {
        Some('\t')
    } else if e == 'b' {
        Some('\u{8}')
    } else if e == 'f' {
        Some('\u{c}')
    } else {
        None
    }
}

/// Parses a JSON string body starting just after the opening quote:
/// yields the decoded text and the index just past the closing quote.
/// Escapes follow JSON: the named ones, `\u` with four hex digits, and
/// surrogate pairs for code points beyond the basic plane; raw control
/// characters are rejected.
pub open spec fn p_string_body(s: Seq<char>, i: int) -> Option<(Seq<char>, int)>
    decreases s.len() - i,
{
    if i < 0 || i >= s.len() {
        None
    } else if s[i] == '"' {
        Some((Seq::empty(), i + 1))
    } else if s[i] == '\\' {
        if i + 1 >= s.len() {
            None
        } else {
            let e = s[i + 1];
            if e == 'u' {
                match p_hex4(s, i + 2) {
                    None => None,
                    Some(n) => {
                        if 0xD800 <= n < 0xDC00 {
                            if i + 8 <= s.len() && s[i + 6] == '\\' && s[i + 7] == 'u' {
                                match p_hex4(s, i + 8) {
                                    None => None,
                                    Some(lo) => {
                                        if 0xDC00 <= lo < 0xE000 {
                                            match p_string_body(s, i + 12) {
                                                None => None,
                                                Some((rest, j)) => Some(
                                                    (
                                                        seq![
                                                            char_of(
                                                                0x10000 + (n - 0xD800) * 0x400 + (lo
                                                                    - 0xDC00),
                                                            ),
                                                        ] + rest,
                                                        j,
                                                    ),
                                                ),
                                            }
                                        } else {
                                            None
                                        }
                                    },
                                }
                            } else {
                                None
                            }
                        } else if 0xDC00 <= n < 0xE000 {
                            None
                        } else {
                            match p_string_body(s, i + 6) {
                                None => None,
                                Some((rest, j)) => Some((seq![char_of(n)] + rest, j)),
                            }
                        }
                    },
                }
            } else {
                match esc_map(e) {
                    None => None,
                    Some(ch) => match p_string_body(s, i + 2) {
                        None => None,
                        Some((rest, j)) => Some((seq![ch] + rest, j)),
                    },
                }
            }
        }
    } else if (s[i] as int) < 0x20 {
        None
    } else {
        match p_string_body(s, i + 1) {
            None => None,
            Some((rest, j)) => Some((seq![s[i]] + rest, j)),
        }
    }
}

/// A parsed string body always ends past where it started.
pub proof fn lemma_string_body_progress(s: Seq<char>, i: int)
    ensures
        match p_string_body(s, i) {
            Some(r) => i < r.1 <= s.len(),
            None => true,
        },
    decreases s.len() - i,
{
    if 0 <= i && i < s.len() {
        lemma_string_body_progress(s, i + 1);
        if i + 2 <= s.len() {
            lemma_string_body_progress(s, i + 2);
        }
        if i + 6 <= s.len() {
            lemma_string_body_progress(s, i + 6);
        }
        if i + 12 <= s.len() {
            lemma_string_body_progress(s, i + 12);
        }
    }
}

/// Characters that end an unquoted scalar value.
pub open spec fn is_delim(c: char) -> bool {
    c == ',' || c == '}' || c == ']' || is_json_ws(c)
}

/// The first index at or after `i` holding a delimiter, or the length.
pub open spec fn scalar_end(s: Seq<char>, i: int) -> int
    decreases s.len() - i,
{
    if 0 <= i && i < s.len() && !is_delim(s[i]) {
        scalar_end(s, i + 1)
    } else {
        i
    }
}

/// Scalar scanning never moves backwards nor beyond the end.
pub proof fn lemma_scalar_end_bounds(s: Seq<char>, i: int)
    ensures
        scalar_end(s, i) >= i,
        i <= s.len() ==> scalar_end(s, i) <= s.len(),
    decreases s.len() - i,
{
    if 0 <= i && i < s.len() && !is_delim(s[i]) {
        lemma_scalar_end_bounds(s, i + 1);
    }
}

/// Skips the remainder of a composite value (object or array), counting
/// bracket depth and passing over string contents; lenient about what
/// the skipped value holds. `i` points just past the opening bracket
/// when called with depth one.
pub open spec fn p_skip_composite(s: Seq<char>, i: int, depth: int, in_str: bool, esc: bool) -> Option<
    int,
>
    decreases s.len() - i,
{
    if depth <= 0 {
        Some(i)
    } else if i < 0 || i >= s.len() {
        None
    } else {
        let c = s[i];
        if in_str {
            if esc {
                p_skip_composite(s, i + 1, depth, true, false)
            } else if c == '\\' {
                p_skip_composite(s, i + 1, depth, true, true)
            } else if c == '"' {
                p_skip_composite(s, i + 1, depth, false, false)
            } else {
                p_skip_composite(s, i + 1, depth, true, false)
            }
        } else {
            if c == '{' || c == '[' {
                p_skip_composite(s, i + 1, depth + 1, false, false)
            } else if c == '}' || c == ']' {
                p_skip_composite(s, i + 1, depth - 1, false, false)
            } else if c == '"' {
                p_skip_composite(s, i + 1, depth, true, false)
            } else {
                p_skip_composite(s, i + 1, depth, false, false)
            }
        }
    }
}

/// A skipped composite never ends before its start, stays within the
/// text, and consumes at least one character while brackets are open.
pub proof fn lemma_skip_composite_end(s: Seq<char>, i: int, depth: int, in_str: bool, esc: bool)
    ensures
        match p_skip_composite(s, i, depth, in_str, esc) {
            Some(j) => j >= i && (i <= s.len() ==> j <= s.len()) && (depth >= 1 ==> j > i),
            None => true,
        },
    decreases s.len() - i,
{
    if depth <= 0 {
    } else if i < 0 || i >= s.len() {
    } else {
        let c = s[i];
        if in_str {
            if esc {
                lemma_skip_composite_end(s, i + 1, depth, true, false);
            } else if c == '\\' {
                lemma_skip_composite_end(s, i + 1, depth, true, true);
            } else if c == '"' {
                lemma_skip_composite_end(s, i + 1, depth, false, false);
            } else {
                lemma_skip_composite_end(s, i + 1, depth, true, false);
            }
        } else {
            if c == '{' || c == '[' {
                lemma_skip_composite_end(s, i + 1, depth + 1, false, false);
            } else if c == '}' || c == ']' {
                lemma_skip_composite_end(s, i + 1, depth - 1, false, false);
            } else if c == '"' {
                lemma_skip_composite_end(s, i + 1, depth, true, false);
            } else {
                lemma_skip_composite_end(s, i + 1, depth, false, false);
            }
        }
    }
}

/// Skips one JSON value starting at `i` (no leading whitespace):
/// a string, a composite, or a scalar run up to the next delimiter.
pub open spec fn p_skip_value(s: Seq<char>, i: int) -> Option<int> {
    if i < 0 || i >= s.len() {
        None
    } else if s[i] == '"' {
        match p_string_body(s, i + 1) {
            None => None,
            Some((v, j)) => Some(j),
        }
    } else if s[i] == '{' || s[i] == '[' {
        p_skip_composite(s, i + 1, 1, false, false)
    } else {
        if scalar_end(s, i) > i {
            Some(scalar_end(s, i))
        } else {
            None
        }
    }
}

/// A skipped value ends past its start and within the text.
pub proof fn lemma_skip_value_progress(s: Seq<char>, i: int)
    ensures
        match p_skip_value(s, i) {
            Some(j) => i < j <= s.len(),
            None => true,
        },
{
    if 0 <= i && i < s.len() {
        lemma_string_body_progress(s, i + 1);
        lemma_skip_composite_end(s, i + 1, 1, false, false);
        lemma_scalar_end_bounds(s, i);
    }
}

/// Parses the items of a nonempty JSON array of strings, starting just
/// after the opening bracket or a separating comma.
pub open spec fn p_string_list(s: Seq<char>, i: int) -> Option<(Seq<Seq<char>>, int)>
    decreases s.len() - i,
{
    let j = ws(s, i);
    if j < s.len() && s[j] == '"' {
        match p_string_body(s, j + 1) {
            None => None,
            Some((v, k)) => {
                let m = ws(s, k);
                if m < s.len() && s[m] == ',' {
                    proof {
                        lemma_ws_bounds(s, i);
                        lemma_string_body_progress(s, j + 1);
                        lemma_ws_bounds(s, k);
                    }
                    match p_string_list(s, m + 1) {
                        None => None,
                        Some((rest, e)) => Some((seq![v] + rest, e)),
                    }
                } else if m < s.len() && s[m] == ']' {
                    Some((seq![v], m + 1))
                } else {
                    None
                }
            },
        }
    } else {
        None
    }
}

/// Parsed string items end past their start and within the text.
pub proof fn lemma_string_list_progress(s: Seq<char>, i: int)
    ensures
        match p_string_list(s, i) {
            Some(r) => i < r.1 <= s.len(),
            None => true,
        },
    decreases s.len() - i,
{
    let j = ws(s, i);
    lemma_ws_bounds(s, i);
    if j < s.len() && s[j] == '"' {
        match p_string_body(s, j + 1) {
            None => {},
            Some((v, k)) => {
                lemma_string_body_progress(s, j + 1);
                let m = ws(s, k);
                lemma_ws_bounds(s, k);
                if m < s.len() && s[m] == ',' {
                    lemma_string_list_progress(s, m + 1);
                }
            },
        }
    }
}

/// Parses a JSON array of strings at `i`.
pub open spec fn p_string_array(s: Seq<char>, i: int) -> Option<(Seq<Seq<char>>, int)> {
    if 0 <= i && i < s.len() && s[i] == '[' {
        let j = ws(s, i + 1);
        if j < s.len() && s[j] == ']' {
            Some((Seq::empty(), j + 1))
        } else {
            p_string_list(s, i + 1)
        }
    } else {
        None
    }
}

/// A parsed string array ends past its start and within the text.
pub proof fn lemma_string_array_progress(s: Seq<char>, i: int)
    ensures
        match p_string_array(s, i) {
            Some(r) => i < r.1 <= s.len(),
            None => true,
        },
{
    if 0 <= i && i < s.len() && s[i] == '[' {
        lemma_ws_bounds(s, i + 1);
        lemma_string_list_progress(s, i + 1);
    }
}

/// The meaningful fields collected while reading an object, each with a
/// seen-marker for duplicate detection. A seen `description` or `stop`
/// may still be `null`, which counts as absent content.
pub struct RecordPartial {
    pub project: Option<Seq<char>>,
    pub description: Option<Option<Seq<char>>>,
    pub start: Option<Seq<char>>,
    pub stop: Option<Option<Seq<char>>>,
    pub tags: Option<Seq<Seq<char>>>,
}

/// No field seen yet.
pub open spec fn empty_partial() -> RecordPartial {
    RecordPartial { project: None, description: None, start: None, stop: None, tags: None }
}

/// A JSON string at `i`, with no leading whitespace.
pub open spec fn p_string_at(s: Seq<char>, i: int) -> Option<(Seq<char>, int)> {
    if 0 <= i && i < s.len() && s[i] == '"' {
        p_string_body(s, i + 1)
    } else {
        None
    }
}

/// The word `null` at `i`.
pub open spec fn null_at(s: Seq<char>, i: int) -> bool {
    0 <= i && i + 4 <= s.len() && s[i] == 'n' && s[i + 1] == 'u' && s[i + 2] == 'l' && s[i + 3]
        == 'l'
}

/// A JSON string or `null` at `i`.
pub open spec fn p_string_or_null(s: Seq<char>, i: int) -> Option<(Option<Seq<char>>, int)> {
    if 0 <= i && i < s.len() && s[i] == '"' {
        match p_string_body(s, i + 1) {
            None => None,
            Some((v, j)) => Some((Some(v), j)),
        }
    } else if null_at(s, i) {
        Some((None, i + 4))
    } else {
        None
    }
}

/// Reads the value of one field at `i` into the partial record:
/// `project` and `start` must be strings, `description` and `stop` a
/// string or `null`, `tags` an array of strings; a repeated meaningful
/// field is an error, and any other field's value is skipped.
pub open spec fn p_field(s: Seq<char>, i: int, p: RecordPartial, key: Seq<char>) -> Option<
    (RecordPartial, int),
> {
    if key == "project"@ {
        if p.project is Some {
            None
        } else {
            match p_string_at(s, i) {
                None => None,
                Some((v, e)) => Some(
                    (
                        RecordPartial {
                            project: Some(v),
                            description: p.description,
                            start: p.start,
                            stop: p.stop,
                            tags: p.tags,
                        },
                        e,
                    ),
                ),
            }
        }
    } else if key == "description"@ {
        if p.description is Some {
            None
        } else {
            match p_string_or_null(s, i) {
                None => None,
                Some((v, e)) => Some(
                    (
                        RecordPartial {
                            project: p.project,
                            description: Some(v),
                            start: p.start,
                            stop: p.stop,
                            tags: p.tags,
                        },
                        e,
                    ),
                ),
            }
        }
    } else if key == "start"@ {
        if p.start is Some {
            None
        } else {
            match p_string_at(s, i) {
                None => None,
                Some((v, e)) => Some(
                    (
                        RecordPartial {
                            project: p.project,
                            description: p.description,
                            start: Some(v),
                            stop: p.stop,
                            tags: p.tags,
                        },
                        e,
                    ),
                ),
            }
        }
    } else if key == "stop"@ {
        if p.stop is Some {
            None
        } else {
            match p_string_or_null(s, i) {
                None => None,
                Some((v, e)) => Some(
                    (
                        RecordPartial {
                            project: p.project,
                            description: p.description,
                            start: p.start,
                            stop: Some(v),
                            tags: p.tags,
                        },
                        e,
                    ),
                ),
            }
        }
    } else if key == "tags"@ {
        if p.tags is Some {
            None
        } else {
            match p_string_array(s, i) {
                None => None,
                Some((v, e)) => Some(
                    (
                        RecordPartial {
                            project: p.project,
                            description: p.description,
                            start: p.start,
                            stop: p.stop,
                            tags: Some(v),
                        },
                        e,
                    ),
                ),
            }
        }
    } else {
        match p_skip_value(s, i) {
            None => None,
            Some(e) => Some((p, e)),
        }
    }
}

/// A read field ends past its start and within the text.
pub proof fn lemma_field_progress(s: Seq<char>, i: int, p: RecordPartial, key: Seq<char>)
    ensures
        match p_field(s, i, p, key) {
            Some(r) => i < r.1 <= s.len(),
            None => true,
        },
{
    if 0 <= i && i < s.len() {
        lemma_string_body_progress(s, i + 1);
    }
    lemma_string_array_progress(s, i);
    lemma_skip_value_progress(s, i);
}

/// Reads the members of the record object, starting just after the
/// opening brace or a separating comma, and ends just past the closing
/// brace.
pub open spec fn p_members(s: Seq<char>, i: int, p: RecordPartial) -> Option<(RecordPartial, int)>
    decreases s.len() - i,
{
    let j = ws(s, i);
    if j < s.len() && s[j] == '"' {
        match p_string_body(s, j + 1) {
            None => None,
            Some((key, k)) => {
                let m = ws(s, k);
                if m < s.len() && s[m] == ':' {
                    let v = ws(s, m + 1);
                    match p_field(s, v, p, key) {
                        None => None,
                        Some((p2, e)) => {
                            let w = ws(s, e);
                            if w < s.len() && s[w] == ',' {
                                proof {
                                    lemma_ws_bounds(s, i);
                                    lemma_string_body_progress(s, j + 1);
                                    lemma_ws_bounds(s, k);
                                    lemma_ws_bounds(s, m + 1);
                                    lemma_field_progress(s, v, p, key);
                                    lemma_ws_bounds(s, e);
                                }
                                p_members(s, w + 1, p2)
                            } else if w < s.len() && s[w] == '}' {
                                Some((p2, w + 1))
                            } else {
                                None
                            }
                        },
                    }
                } else {
                    None
                }
            },
        }
    } else {
        None
    }
}

/// Parses a whole record object from the start of the text.
pub open spec fn p_record(s: Seq<char>) -> Option<(RecordPartial, int)> {
    let j = ws(s, 0);
    if j < s.len() && s[j] == '{' {
        let k = ws(s, j + 1);
        if k < s.len() && s[k] == '}' {
            Some((empty_partial(), k + 1))
        } else {
            p_members(s, j + 1, empty_partial())
        }
    } else {
        None
    }
}

/// Turns the collected fields into an event: `project`, `start` and
/// `tags` are required, `start` must be a strict timestamp, a missing or
/// `null` description is empty, and a `stop` that is absent, `null` or
/// not a strict timestamp leaves the event open.
pub open spec fn validate(p: RecordPartial) -> Option<EventModel> {
    match (p.project, p.start, p.tags) {
        (Some(proj), Some(st), Some(tags)) => {
            if rfc3339_valid(st) {
                Some(
                    EventModel {
                        project: proj,
                        description: match p.description {
                            Some(Some(d)) => d,
                            _ => Seq::empty(),
                        },
                        tags: tags,
                        start: rfc3339_value(st),
                        stop: match p.stop {
                            Some(Some(t)) => if rfc3339_valid(t) {
                                Some(rfc3339_value(t))
                            } else {
                                None
                            },
                            _ => None,
                        },
                    },
                )
            } else {
                None
            }
        },
        _ => None,
    }
}

/// What decoding a record text yields: the event its object denotes,
/// or nothing when the text is not a single well-formed record object.
pub open spec fn spec_decode(s: Seq<char>) -> Option<EventModel> {
    match p_record(s) {
        None => None,
        Some((p, e)) => {
            if ws(s, e) == s.len() {
                validate(p)
            } else {
                None
            }
        },
    }
}

/// Skips JSON whitespace from `i`.
fn ws_exec(s: &Vec<char>, i: usize) -> (r: usize)
    requires
        i <= s@.len(),
    ensures
        r as int == ws(s@, i as int),
        i <= r <= s@.len(),
{
    let n = s.len();
    let mut k = i;
    while k < n && (s[k] == ' ' || s[k] == '\t' || s[k] == '\n' || s[k] == '\r')
        invariant
            i <= k <= n,
            n == s@.len(),
            ws(s@, i as int) == ws(s@, k as int),
        decreases n - k,
    {
        k = k + 1;
    }
    proof {
        lemma_ws_bounds(s@, k as int);
    }
    k
}

/// The value of a hexadecimal digit character.
fn hex_of(c: char) -> (r: Option<u8>)
    ensures
        match r {
            Some(d) => is_hex(c) && d as int == hex_val(c) && d < 16,
            None => !is_hex(c),
        },
{
    let u = c as u32;
    if 48 <= u && u <= 57 {
        Some((u - 48) as u8)
    } else if 97 <= u && u <= 102 {
        Some((u - 87) as u8)
    } else if 65 <= u && u <= 70 {
        Some((u - 55) as u8)
    } else {
        None
    }
}

/// Reads four hexadecimal digits at `i`.
fn hex4_exec(s: &Vec<char>, i: usize) -> (r: Option<u32>)
    ensures
        match r {
            Some(n) => p_hex4(s@, i as int) == Some(n as int) && n < 0x10000,
            None => p_hex4(s@, i as int) is None,
        },
{
    let len = s.len();
    if len < 4 || i > len - 4 {
        return None;
    }
    match (hex_of(s[i]), hex_of(s[i + 1]), hex_of(s[i + 2]), hex_of(s[i + 3])) {
        (Some(a), Some(b), Some(c), Some(d)) => Some(
            (a as u32) * 4096 + (b as u32) * 256 + (c as u32) * 16 + (d as u32),
        ),
        _ => None,
    }
}

/// What a two-character escape stands for.
fn esc_map_exec(e: char) -> (r: Option<char>)
    ensures
        r == esc_map(e),
{
    if e == '"' {
        Some('"')
    } else if e == '\\' {
        Some('\\')
    } else if e == '/' {
        Some('/')
    } else if e == 'n' {
        Some('\n')
    } else if e == 'r' {
        Some('\r')
    } else if e == 't' {
        Some('\t')
    } else if e == 'b' {
        Some('\u{8}')
    } else if e == 'f' {
        Some('\u{c}')
    } else {
        None
    }
}

/// Reads a JSON string body starting just after the opening quote.
#[verifier::rlimit(100)]
fn string_body_exec(s: &Vec<char>, from: usize) -> (r: Option<(Vec<char>, usize)>)
    requires
        from <= s@.len(),
    ensures
        match r {
            Some(v) => p_string_body(s@, from as int) == Some((v.0@, v.1 as int)) && from < v.1
                <= s@.len(),
            None => p_string_body(s@, from as int) is None,
        },
{
    let n = s.len();
    let mut acc: Vec<char> = Vec::new();
    let mut i: usize = from;
    proof {
        match p_string_body(s@, from as int) {
            Some(pr) => {
                assert(Seq::<char>::empty() + pr.0 =~= pr.0);
            },
            None => {},
        }
        assert(acc@ =~= Seq::<char>::empty());
    }
    while i < n
        invariant
            from <= i <= n,
            n == s@.len(),
            match p_string_body(s@, i as int) {
                Some(pr) => p_string_body(s@, from as int) == Some((acc@ + pr.0, pr.1)),
                None => p_string_body(s@, from as int) is None,
            },
        decreases n - i,
    {
        let c = s[i];
        proof {
            crate::text::lemma_char_code(c);
        }
        if c == '"' {
            proof {
                assert(acc@ + Seq::<char>::empty() =~= acc@);
                lemma_string_body_progress(s@, from as int);
            }
            return Some((acc, i + 1));
        } else if c == '\\' {
            if i + 1 >= n {
                return None;
            }
            let e = s[i + 1];
            if e == 'u' {
                let nv = match hex4_exec(s, i + 2) {
                    Some(h) => h,
                    None => {
                        return None;
                    },
                };
                if 0xD800 <= nv && nv < 0xDC00 {
                    if n - i >= 8 && s[i + 6] == '\\' && s[i + 7] == 'u' {
                        let lo = match hex4_exec(s, i + 8) {
                            Some(h) => h,
                            None => {
                                return None;
                            },
                        };
                        if 0xDC00 <= lo && lo < 0xE000 {
                            let code: u32 = 0x10000 + (nv - 0xD800) * 0x400 + (lo - 0xDC00);
                            let ch = match crate::text::char_from_code(code) {
                                Some(c2) => c2,
                                None => unreached(),
                            };
                            let ghost before = acc@;
                            proof {
                                crate::text::lemma_char_code(ch);
                                lemma_char_of(ch, code as int);
                            }
                            acc.push(ch);
                            proof {
                                match p_string_body(s@, i as int + 12) {
                                    Some(pr) => {
                                        assert(p_string_body(s@, i as int) == Some(
                                            (seq![char_of(code as int)] + pr.0, pr.1),
                                        ));
                                        assert(acc@ =~= before.push(ch));
                                        assert(before + (seq![char_of(code as int)] + pr.0) =~= acc@
                                            + pr.0);
                                    },
                                    None => {
                                        assert(p_string_body(s@, i as int) is None);
                                    },
                                }
                            }
                            i = i + 12;
                        } else {
                            return None;
                        }
                    } else {
                        return None;
                    }
                } else if 0xDC00 <= nv && nv < 0xE000 {
                    return None;
                } else {
                    let ch = match crate::text::char_from_code(nv) {
                        Some(c2) => c2,
                        None => unreached(),
                    };
                    let ghost before = acc@;
                    proof {
                        crate::text::lemma_char_code(ch);
                        lemma_char_of(ch, nv as int);
                    }
                    acc.push(ch);
                    proof {
                        match p_string_body(s@, i as int + 6) {
                            Some(pr) => {
                                assert(p_string_body(s@, i as int) == Some(
                                    (seq![char_of(nv as int)] + pr.0, pr.1),
                                ));
                                assert(acc@ =~= before.push(ch));
                                assert(before + (seq![char_of(nv as int)] + pr.0) =~= acc@ + pr.0);
                            },
                            None => {
                                assert(p_string_body(s@, i as int) is None);
                            },
                        }
                    }
                    i = i + 6;
                }
            } else {
                let ch = match esc_map_exec(e) {
                    Some(c2) => c2,
                    None => {
                        return None;
                    },
                };
                let ghost before = acc@;
                acc.push(ch);
                proof {
                    match p_string_body(s@, i as int + 2) {
                        Some(pr) => {
                            assert(p_string_body(s@, i as int) == Some((seq![ch] + pr.0, pr.1)));
                            assert(acc@ =~= before.push(ch));
                            assert(before + (seq![ch] + pr.0) =~= acc@ + pr.0);
                        },
                        None => {
                            assert(p_string_body(s@, i as int) is None);
                        },
                    }
                }
                i = i + 2;
            }
        } else if (c as u32) < 0x20 {
            return None;
        } else {
            let ghost before = acc@;
            acc.push(c);
            proof {
                match p_string_body(s@, i as int + 1) {
                    Some(pr) => {
                        assert(p_string_body(s@, i as int) == Some((seq![c] + pr.0, pr.1)));
                        assert(acc@ =~= before.push(c));
                        assert(before + (seq![c] + pr.0) =~= acc@ + pr.0);
                    },
                    None => {
                        assert(p_string_body(s@, i as int) is None);
                    },
                }
            }
            i = i + 1;
        }
    }
    proof {
        assert(p_string_body(s@, i as int) is None);
    }
    None
}

/// Scans to the delimiter ending an unquoted scalar.
fn scalar_end_exec(s: &Vec<char>, i: usize) -> (r: usize)
    requires
        i <= s@.len(),
    ensures
        r as int == scalar_end(s@, i as int),
        i <= r <= s@.len(),
{
    let n = s.len();
    let mut k = i;
    while k < n && !(s[k] == ',' || s[k] == '}' || s[k] == ']' || s[k] == ' ' || s[k] == '\t'
        || s[k] == '\n' || s[k] == '\r')
        invariant
            i <= k <= n,
            n == s@.len(),
            scalar_end(s@, i as int) == scalar_end(s@, k as int),
        decreases n - k,
    {
        k = k + 1;
    }
    proof {
        lemma_scalar_end_bounds(s@, k as int);
    }
    k
}

/// Skips the remainder of a composite value, from just past its opening
/// bracket.
fn skip_composite_exec(s: &Vec<char>, from: usize) -> (r: Option<usize>)
    requires
        1 <= from <= s@.len(),
    ensures
        match r {
            Some(j) => p_skip_composite(s@, from as int, 1, false, false) == Some(j as int) && from
                < j <= s@.len(),
            None => p_skip_composite(s@, from as int, 1, false, false) is None,
        },
{
    let n = s.len();
    let mut i = from;
    let mut depth: usize = 1;
    let mut in_str = false;
    let mut esc = false;
    proof {
        lemma_skip_composite_end(s@, from as int, 1, false, false);
    }
    while i < n && depth > 0
        invariant
            from <= i <= n,
            1 <= from,
            n == s@.len(),
            depth <= i - from + 1,
            p_skip_composite(s@, from as int, 1, false, false) == p_skip_composite(
                s@,
                i as int,
                depth as int,
                in_str,
                esc,
            ),
            p_skip_composite(s@, from as int, 1, false, false) is Some ==> from
                < p_skip_composite(s@, from as int, 1, false, false)->Some_0 <= s@.len(),
        decreases n - i,
    {
        let c = s[i];
        let nd: usize;
        let nstr: bool;
        let nesc: bool;
        if in_str {
            if esc {
                nd = depth;
                nstr = true;
                nesc = false;
            } else if c == '\\' {
                nd = depth;
                nstr = true;
                nesc = true;
            } else if c == '"' {
                nd = depth;
                nstr = false;
                nesc = false;
            } else {
                nd = depth;
                nstr = true;
                nesc = false;
            }
        } else {
            if c == '{' || c == '[' {
                nd = depth + 1;
                nstr = false;
                nesc = false;
            } else if c == '}' || c == ']' {
                nd = depth - 1;
                nstr = false;
                nesc = false;
            } else if c == '"' {
                nd = depth;
                nstr = true;
                nesc = false;
            } else {
                nd = depth;
                nstr = false;
                nesc = false;
            }
        }
        proof {
            assert(p_skip_composite(s@, i as int, depth as int, in_str, esc) == p_skip_composite(
                s@,
                i as int + 1,
                nd as int,
                nstr,
                nesc,
            ));
        }
        depth = nd;
        in_str = nstr;
        esc = nesc;
        i = i + 1;
    }
    if depth == 0 {
        proof {
            assert(p_skip_composite(s@, i as int, 0, in_str, esc) == Some(i as int));
        }
        Some(i)
    } else {
        proof {
            assert(i == n);
            assert(p_skip_composite(s@, i as int, depth as int, in_str, esc) is None);
        }
        None
    }
}

/// Skips one JSON value at `i`.
fn skip_value_exec(s: &Vec<char>, i: usize) -> (r: Option<usize>)
    requires
        i <= s@.len(),
    ensures
        match r {
            Some(j) => p_skip_value(s@, i as int) == Some(j as int) && i < j <= s@.len(),
            None => p_skip_value(s@, i as int) is None,
        },
{
    let n = s.len();
    if i >= n {
        return None;
    }
    let c = s[i];
    if c == '"' {
        match string_body_exec(s, i + 1) {
            Some((_, j)) => Some(j),
            None => None,
        }
    } else if c == '{' || c == '[' {
        skip_composite_exec(s, i + 1)
    } else {
        let e = scalar_end_exec(s, i);
        if e > i {
            Some(e)
        } else {
            None
        }
    }
}

/// Reads a JSON array of strings at `i`.
fn string_array_exec(s: &Vec<char>, at: usize) -> (r: Option<(Vec<Vec<char>>, usize)>)
    requires
        at <= s@.len(),
    ensures
        match r {
            Some(v) => p_string_array(s@, at as int) == Some((v.0.deep_view(), v.1 as int)) && at
                < v.1 <= s@.len(),
            None => p_string_array(s@, at as int) is None,
        },
{
    let n = s.len();
    if at >= n || !(s[at] == '[') {
        return None;
    }
    let j0 = ws_exec(s, at + 1);
    if j0 < n && s[j0] == ']' {
        let out: Vec<Vec<char>> = Vec::new();
        proof {
            assert(out.deep_view() =~= Seq::<Seq<char>>::empty());
        }
        return Some((out, j0 + 1));
    }
    // Nonempty list: accumulate items.
    let mut out: Vec<Vec<char>> = Vec::new();
    let mut cur: usize = at + 1;
    proof {
        lemma_string_list_progress(s@, at as int + 1);
        match p_string_list(s@, at as int + 1) {
            Some(pr) => {
                assert(Seq::<Seq<char>>::empty() + pr.0 =~= pr.0);
                assert(out.deep_view() =~= Seq::<Seq<char>>::empty());
            },
            None => {},
        }
    }
    loop
        invariant
            cur <= s@.len(),
            n == s@.len(),
            (at as int) < cur,
            match p_string_list(s@, cur as int) {
                Some(pr) => p_string_array(s@, at as int) == Some(
                    (out.deep_view() + pr.0, pr.1),
                ) && (cur as int) < pr.1 <= s@.len(),
                None => p_string_array(s@, at as int) is None,
            },
        decreases s@.len() - cur,
    {
        proof {
            lemma_string_list_progress(s@, cur as int);
        }
        let j = ws_exec(s, cur);
        if !(j < n && s[j] == '"') {
            return None;
        }
        let (item, k) = match string_body_exec(s, j + 1) {
            Some(p) => p,
            None => {
                return None;
            },
        };
        let m = ws_exec(s, k);
        let ghost before = out.deep_view();
        let ghost item_view = item@;
        proof {
            assert(item.deep_view() =~= item_view);
        }
        out.push(item);
        proof {
            assert(out.deep_view() =~= before.push(item_view));
        }
        if m < n && s[m] == ',' {
            proof {
                lemma_string_list_progress(s@, m as int + 1);
                match p_string_list(s@, m as int + 1) {
                    Some(pr) => {
                        assert(p_string_list(s@, cur as int) == Some(
                            (seq![item_view] + pr.0, pr.1),
                        ));
                        assert(before + (seq![item_view] + pr.0) =~= out.deep_view() + pr.0);
                    },
                    None => {
                        assert(p_string_list(s@, cur as int) is None);
                    },
                }
            }
            cur = m + 1;
        } else if m < n && s[m] == ']' {
            proof {
                assert(p_string_list(s@, cur as int) == Some((seq![item_view], m as int + 1)));
                assert(before + seq![item_view] =~= out.deep_view());
            }
            return Some((out, m + 1));
        } else {
            proof {
                assert(p_string_list(s@, cur as int) is None);
            }
            return None;
        }
    }
}

/// Whether the characters spell exactly the given text.
fn chars_eq_str(v: &Vec<char>, lit: &str) -> (r: bool)
    ensures
        r == (v@ == lit@),
{
    let n = lit.unicode_len();
    if v.len() != n {
        proof {
            assert(v@ != lit@);
        }
        return false;
    }
    let mut i: usize = 0;
    while i < n
        invariant
            i <= n,
            n == lit@.len(),
            v@.len() == n,
            forall|q: int| 0 <= q < i ==> v@[q] == lit@[q],
        decreases n - i,
    {
        if v[i] != lit.get_char(i) {
            proof {
                assert(v@ != lit@);
            }
            return false;
        }
        i = i + 1;
    }
    proof {
        assert(v@ =~= lit@);
    }
    true
}

/// The collected fields as executable values.
struct PartialExec {
    project: Option<Vec<char>>,
    description: Option<Option<Vec<char>>>,
    start: Option<Vec<char>>,
    stop: Option<Option<Vec<char>>>,
    tags: Option<Vec<Vec<char>>>,
}

/// The view of an optional character vector.
pub open spec fn opt_chars_view(o: Option<Vec<char>>) -> Option<Seq<char>> {
    match o {
        Some(v) => Some(v@),
        None => None,
    }
}

/// The model of the collected fields.
spec fn partial_view(p: PartialExec) -> RecordPartial {
    RecordPartial {
        project: opt_chars_view(p.project),
        description: match p.description {
            Some(x) => Some(opt_chars_view(x)),
            None => None,
        },
        start: opt_chars_view(p.start),
        stop: match p.stop {
            Some(x) => Some(opt_chars_view(x)),
            None => None,
        },
        tags: match p.tags {
            Some(v) => Some(v.deep_view()),
            None => None,
        },
    }
}

/// Reads a JSON string or `null` at `i`.
fn string_or_null_exec(s: &Vec<char>, i: usize) -> (r: Option<(Option<Vec<char>>, usize)>)
    requires
        i <= s@.len(),
    ensures
        match r {
            Some(v) => p_string_or_null(s@, i as int) == Some((opt_chars_view(v.0), v.1 as int))
                && i < v.1 <= s@.len(),
            None => p_string_or_null(s@, i as int) is None,
        },
{
    let n = s.len();
    if i < n && s[i] == '"' {
        match string_body_exec(s, i + 1) {
            Some((v, j)) => Some((Some(v), j)),
            None => None,
        }
    } else if n - i >= 4 && s[i] == 'n' && s[i + 1] == 'u' && s[i + 2] == 'l' && s[i + 3] == 'l' {
        Some((None, i + 4))
    } else {
        proof {
            assert(!null_at(s@, i as int));
        }
        None
    }
}

/// Reads the members of the record object, from just after the opening
/// brace.
#[verifier::rlimit(100)]
fn members_exec(s: &Vec<char>, start0: usize) -> (r: Option<(PartialExec, usize)>)
    requires
        start0 <= s@.len(),
    ensures
        match r {
            Some(v) => p_members(s@, start0 as int, empty_partial()) == Some(
                (partial_view(v.0), v.1 as int),
            ) && v.1 <= s@.len(),
            None => p_members(s@, start0 as int, empty_partial()) is None,
        },
{
    let n = s.len();
    let mut pe = PartialExec { project: None, description: None, start: None, stop: None, tags: None };
    let mut cur = start0;
    proof {
        assert(partial_view(pe) == empty_partial());
    }
    loop
        invariant
            cur <= n,
            n == s@.len(),
            p_members(s@, start0 as int, empty_partial()) == p_members(
                s@,
                cur as int,
                partial_view(pe),
            ),
        decreases n - cur,
    {
        let ghost pv = partial_view(pe);
        let j = ws_exec(s, cur);
        if !(j < n && s[j] == '"') {
            proof {
                assert(p_members(s@, cur as int, pv) is None);
            }
            return None;
        }
        let (key, k) = match string_body_exec(s, j + 1) {
            Some(p) => p,
            None => {
                proof {
                    assert(p_members(s@, cur as int, pv) is None);
                }
                return None;
            },
        };
        let m = ws_exec(s, k);
        if !(m < n && s[m] == ':') {
            proof {
                assert(p_members(s@, cur as int, pv) is None);
            }
            return None;
        }
        let v = ws_exec(s, m + 1);
        // Dispatch on the key, mirroring the order of the field reader.
        let e: usize;
        if chars_eq_str(&key, "project") {
            if pe.project.is_some() {
                proof {
                    assert(p_field(s@, v as int, pv, key@) is None);
                    assert(p_members(s@, cur as int, pv) is None);
                }
                return None;
            }
            if !(v < n && s[v] == '"') {
                proof {
                    assert(p_string_at(s@, v as int) is None);
                    assert(p_members(s@, cur as int, pv) is None);
                }
                return None;
            }
            match string_body_exec(s, v + 1) {
                Some((val, e2)) => {
                    pe.project = Some(val);
                    e = e2;
                },
                None => {
                    proof {
                        assert(p_string_at(s@, v as int) is None);
                        assert(p_members(s@, cur as int, pv) is None);
                    }
                    return None;
                },
            }
        } else if chars_eq_str(&key, "description") {
            if pe.description.is_some() {
                proof {
                    assert(p_members(s@, cur as int, pv) is None);
                }
                return None;
            }
            match string_or_null_exec(s, v) {
                Some((val, e2)) => {
                    pe.description = Some(val);
                    e = e2;
                },
                None => {
                    proof {
                        assert(p_members(s@, cur as int, pv) is None);
                    }
                    return None;
                },
            }
        } else if chars_eq_str(&key, "start") {
            if pe.start.is_some() {
                proof {
                    assert(p_members(s@, cur as int, pv) is None);
                }
                return None;
            }
            if !(v < n && s[v] == '"') {
                proof {
                    assert(p_string_at(s@, v as int) is None);
                    assert(p_members(s@, cur as int, pv) is None);
                }
                return None;
            }
            match string_body_exec(s, v + 1) {
                Some((val, e2)) => {
                    pe.start = Some(val);
                    e = e2;
                },
                None => {
                    proof {
                        assert(p_string_at(s@, v as int) is None);
                        assert(p_members(s@, cur as int, pv) is None);
                    }
                    return None;
                },
            }
        } else if chars_eq_str(&key, "stop") {
            if pe.stop.is_some() {
                proof {
                    assert(p_members(s@, cur as int, pv) is None);
                }
                return None;
            }
            match string_or_null_exec(s, v) {
                Some((val, e2)) => {
                    pe.stop = Some(val);
                    e = e2;
                },
                None => {
                    proof {
                        assert(p_members(s@, cur as int, pv) is None);
                    }
                    return None;
                },
            }
        } else if chars_eq_str(&key, "tags") {
            if pe.tags.is_some() {
                proof {
                    assert(p_members(s@, cur as int, pv) is None);
                }
                return None;
            }
            match string_array_exec(s, v) {
                Some((val, e2)) => {
                    pe.tags = Some(val);
                    e = e2;
                },
                None => {
                    proof {
                        assert(p_members(s@, cur as int, pv) is None);
                    }
                    return None;
                },
            }
        } else {
            match skip_value_exec(s, v) {
                Some(e2) => {
                    e = e2;
                },
                None => {
                    proof {
                        assert(p_members(s@, cur as int, pv) is None);
                    }
                    return None;
                },
            }
        }
        proof {
            assert(p_field(s@, v as int, pv, key@) == Some((partial_view(pe), e as int)));
        }
        let w = ws_exec(s, e);
        if w < n && s[w] == ',' {
            proof {
                assert(p_members(s@, cur as int, pv) == p_members(
                    s@,
                    w as int + 1,
                    partial_view(pe),
                ));
            }
            cur = w + 1;
        } else if w < n && s[w] == '}' {
            proof {
                assert(p_members(s@, cur as int, pv) == Some((partial_view(pe), w as int + 1)));
            }
            return Some((pe, w + 1));
        } else {
            proof {
                assert(p_members(s@, cur as int, pv) is None);
            }
            return None;
        }
    }
}

/// Reads an event from its on-disk record text.
///
/// Succeeds exactly on the texts [`spec_decode`] accepts, and then
/// returns the denoted event; everything else is a malformed record.
pub fn decode_record(content: &str) -> (r: Result<Event, TrackError>)
    ensures
        match r {
            Ok(e) => e.wf() && spec_decode(content@) == Some(event_model(e)),
            Err(err) => spec_decode(content@) is None && err == TrackError::MalformedRecord,
        },
{
    let s = chars_of_str(content);
    let n = s.len();
    let j = ws_exec(&s, 0);
    if !(j < n && s[j] == '{') {
        return Err(TrackError::MalformedRecord);
    }
    let k = ws_exec(&s, j + 1);
    let empty_pe = PartialExec {
        project: None,
        description: None,
        start: None,
        stop: None,
        tags: None,
    };
    let (pe, end): (PartialExec, usize) = if k < n && s[k] == '}' {
        proof {
            assert(partial_view(empty_pe) == empty_partial());
        }
        (empty_pe, k + 1)
    } else {
        match members_exec(&s, j + 1) {
            Some(p) => p,
            None => {
                return Err(TrackError::MalformedRecord);
            },
        }
    };
    let ghost pv = partial_view(pe);
    let t = ws_exec(&s, end);
    if t != n {
        return Err(TrackError::MalformedRecord);
    }
    // Validation: required fields, timestamps.
    let proj = match pe.project {
        Some(p) => p,
        None => {
            return Err(TrackError::MalformedRecord);
        },
    };
    let start_text = match pe.start {
        Some(p) => p,
        None => {
            return Err(TrackError::MalformedRecord);
        },
    };
    let tag_texts = match pe.tags {
        Some(p) => p,
        None => {
            return Err(TrackError::MalformedRecord);
        },
    };
    let start_dt = match parse_rfc3339(&start_text) {
        Some(d) => d,
        None => {
            return Err(TrackError::MalformedRecord);
        },
    };
    let desc: Vec<char> = match pe.description {
        Some(Some(d)) => d,
        _ => Vec::new(),
    };
    let stop_dt: Option<DateTime> = match pe.stop {
        Some(Some(t2)) => parse_rfc3339(&t2),
        _ => None,
    };
    let mut tag_strings: Vec<String> = Vec::new();
    let ghost tags_model = tag_texts.deep_view();
    let mut i: usize = 0;
    proof {
        assert(tag_strings.deep_view() =~= tags_model.take(0));
    }
    while i < tag_texts.len()
        invariant
            i <= tag_texts@.len(),
            tags_model == tag_texts.deep_view(),
            tag_strings.deep_view() == tags_model.take(i as int),
        decreases tag_texts@.len() - i,
    {
        let ghost before = tag_strings.deep_view();
        let t2 = string_from_chars(&tag_texts[i]);
        proof {
            assert(tag_texts@[i as int].deep_view() =~= tag_texts@[i as int]@);
            assert(t2@ == tags_model[i as int]);
        }
        tag_strings.push(t2);
        proof {
            assert(tag_strings.deep_view() =~= before.push(tags_model[i as int]));
            assert(before.push(tags_model[i as int]) =~= tags_model.take(i as int + 1));
        }
        i = i + 1;
    }
    proof {
        assert(tags_model.take(tags_model.len() as int) =~= tags_model);
    }
    let ev = Event {
        project: string_from_chars(&proj),
        description: string_from_chars(&desc),
        tags: tag_strings,
        start: start_dt,
        stop: stop_dt,
    };
    proof {
        assert(desc@ =~= match pv.description {
            Some(Some(d)) => d,
            _ => Seq::<char>::empty(),
        });
        assert(event_model(ev) == validate(pv)->Some_0);
    }
    Ok(ev)
}

} // verus!
