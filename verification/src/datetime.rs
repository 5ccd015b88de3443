//! Naive local date-times: validity, ordering, duration arithmetic,
//! fixed-width decimal formatting and strict parsing.

use vstd::prelude::*;

verus! {

use crate::text::{digit_char, digit_val, is_digit, digit_exec, digit_of, string_from_chars};

/// A naive local wall-clock date and time with second precision.
///
/// Only well-formed values (see [`DateTime::wf`]) take part in the
/// library's contracts: a valid proleptic-Gregorian calendar date with a
/// four-digit year and an in-range time of day.
#[derive(Clone, Copy, PartialEq, Eq, Structural, Debug, Hash)]
pub struct DateTime {
    pub year: u16,
    pub month: u8,
    pub day: u8,
    pub hour: u8,
    pub minute: u8,
    pub second: u8,
}

/// Proleptic Gregorian leap-year rule.
pub open spec fn is_leap_year(y: int) -> bool {
    y % 4 == 0 && (y % 100 != 0 || y % 400 == 0)
}

/// Number of days in a month of a given year.
pub open spec fn days_in_month(y: int, m: int) -> int {
    if m == 2 {
        if is_leap_year(y) {
            29
        } else {
            28
        }
    } else if m == 4 || m == 6 || m == 9 || m == 11 {
        30
    } else {
        31
    }
}

impl DateTime {
    /// A valid calendar date with a four-digit year and in-range time.
    pub open spec fn wf(self) -> bool {
        &&& self.year <= 9999
        &&& 1 <= self.month <= 12
        &&& 1 <= self.day <= days_in_month(self.year as int, self.month as int)
        &&& self.hour < 24
        &&& self.minute < 60
        &&& self.second < 60
    }

    /// Builds a date-time from components, or nothing when they do not
    /// form a well-formed value.
    pub fn new(year: u16, month: u8, day: u8, hour: u8, minute: u8, second: u8) -> (r: Option<
        DateTime,
    >)
        ensures
            match r {
                Some(dt) => dt.wf() && dt == (DateTime { year, month, day, hour, minute, second }),
                None => !(DateTime { year, month, day, hour, minute, second }).wf(),
            },
    {
        let dt = DateTime { year, month, day, hour, minute, second };
        if year <= 9999 && 1 <= month && month <= 12 && 1 <= day && day <= days_in_month_exec(
            year,
            month,
        ) && hour < 24 && minute < 60 && second < 60 {
            Some(dt)
        } else {
            None
        }
    }
}

/// Number of leap years in `[0, y)`.
pub open spec fn leap_days_before(y: int) -> int
    decreases y,
{
    if y <= 0 {
        0
    } else {
        leap_days_before(y - 1) + if is_leap_year(y - 1) {
            1int
        } else {
            0int
        }
    }
}

/// Days of the year that precede the first day of month `m` of year `y`.
pub open spec fn days_before_month(y: int, m: int) -> int {
    let l: int = if is_leap_year(y) {
        1int
    } else {
        0int
    };
    if m <= 1 {
        0
    } else if m == 2 {
        31
    } else if m == 3 {
        59 + l
    } else if m == 4 {
        90 + l
    } else if m == 5 {
        120 + l
    } else if m == 6 {
        151 + l
    } else if m == 7 {
        181 + l
    } else if m == 8 {
        212 + l
    } else if m == 9 {
        243 + l
    } else if m == 10 {
        273 + l
    } else if m == 11 {
        304 + l
    } else {
        334 + l
    }
}

/// Days from year 0, January 1st up to (excluding) the given date.
pub open spec fn day_ordinal(dt: DateTime) -> int {
    365 * (dt.year as int) + leap_days_before(dt.year as int) + days_before_month(
        dt.year as int,
        dt.month as int,
    ) + (dt.day as int - 1)
}

/// Seconds from year 0, January 1st midnight up to the given instant.
pub open spec fn total_seconds(dt: DateTime) -> int {
    day_ordinal(dt) * 86400 + (dt.hour as int) * 3600 + (dt.minute as int) * 60 + (dt.second as int)
}

/// Lexicographic order on the components, which for well-formed values
/// coincides with chronological order (see
/// [`lemma_order_matches_seconds`]).
pub open spec fn lex_le(a: DateTime, b: DateTime) -> bool {
    if a.year != b.year {
        a.year < b.year
    } else if a.month != b.month {
        a.month < b.month
    } else if a.day != b.day {
        a.day < b.day
    } else if a.hour != b.hour {
        a.hour < b.hour
    } else if a.minute != b.minute {
        a.minute < b.minute
    } else {
        a.second <= b.second
    }
}

/// Two instants on the same calendar day.
pub open spec fn same_date(a: DateTime, b: DateTime) -> bool {
    a.year == b.year && a.month == b.month && a.day == b.day
}

proof fn lemma_leap_days_monotone(x: int, y: int)
    requires
        0 <= x <= y,
    ensures
        leap_days_before(x) <= leap_days_before(y),
        leap_days_before(y) - leap_days_before(x) <= y - x,
    decreases y - x,
{
    if x < y {
        lemma_leap_days_monotone(x, y - 1);
    }
}

proof fn lemma_day_ordinal_monotone(a: DateTime, b: DateTime)
    requires
        a.wf(),
        b.wf(),
        (a.year, a.month, a.day) != (b.year, b.month, b.day),
        lex_le(a, b),
    ensures
        day_ordinal(a) < day_ordinal(b),
{
    if a.year == b.year {
        // Same year: the month table is a finite case split.
    } else {
        let ya = a.year as int;
        let yb = b.year as int;
        lemma_leap_days_monotone(ya + 1, yb);
        assert(leap_days_before(ya + 1) == leap_days_before(ya) + if is_leap_year(ya) {
            1int
        } else {
            0int
        });
        let la: int = if is_leap_year(ya) {
            1int
        } else {
            0int
        };
        // Within year `ya` no date exceeds day `364 + la` of the year.
        assert(days_before_month(ya, a.month as int) + (a.day as int - 1) <= 364 + la);
        assert(day_ordinal(b) >= 365 * yb + leap_days_before(yb));
        assert(365 * yb >= 365 * (ya + 1)) by (nonlinear_arith)
            requires
                yb >= ya + 1,
        ;
    }
}

/// Chronological order of well-formed date-times is exactly the
/// lexicographic order of their components.
pub proof fn lemma_order_matches_seconds(a: DateTime, b: DateTime)
    requires
        a.wf(),
        b.wf(),
    ensures
        lex_le(a, b) <==> total_seconds(a) <= total_seconds(b),
{
    if a != b {
        if lex_le(a, b) {
            lemma_seconds_strict(a, b);
        } else {
            lemma_seconds_strict(b, a);
        }
    }
}

proof fn lemma_seconds_strict(a: DateTime, b: DateTime)
    requires
        a.wf(),
        b.wf(),
        lex_le(a, b),
        a != b,
    ensures
        total_seconds(a) < total_seconds(b),
{
    if (a.year, a.month, a.day) == (b.year, b.month, b.day) {
    } else {
        lemma_day_ordinal_monotone(a, b);
        let oa = day_ordinal(a);
        let ob = day_ordinal(b);
        assert(oa * 86400 + 86400 <= ob * 86400) by (nonlinear_arith)
            requires
                oa < ob,
        ;
    }
}

/// Leap-year test.
pub fn is_leap_year_exec(y: u16) -> (r: bool)
    ensures
        r == is_leap_year(y as int),
{
    y % 4 == 0 && (y % 100 != 0 || y % 400 == 0)
}

/// Days in a month.
pub fn days_in_month_exec(y: u16, m: u8) -> (r: u8)
    ensures
        r as int == days_in_month(y as int, m as int),
{
    if m == 2 {
        if is_leap_year_exec(y) {
            29
        } else {
            28
        }
    } else if m == 4 || m == 6 || m == 9 || m == 11 {
        30
    } else {
        31
    }
}

impl DateTime {
    /// Seconds from year 0, January 1st midnight up to this instant.
    pub fn to_seconds(&self) -> (r: u64)
        requires
            self.wf(),
        ensures
            r as int == total_seconds(*self),
    {
        proof {
            lemma_leap_days_bound(self.year as int);
        }
        let mut i: u16 = 0;
        let mut leaps: u64 = 0;
        while i < self.year
            invariant
                i <= self.year,
                leaps as int == leap_days_before(i as int),
                leaps <= i,
            decreases self.year - i,
        {
            if is_leap_year_exec(i) {
                leaps = leaps + 1;
            }
            i = i + 1;
        }
        let dbm: u64 = days_before_month_exec(self.year, self.month) as u64;
        let ordinal: u64 = 365 * (self.year as u64) + leaps + dbm + (self.day as u64 - 1);
        ordinal * 86400 + (self.hour as u64) * 3600 + (self.minute as u64) * 60 + (
        self.second as u64)
    }

    /// Signed difference `self - other` in seconds.
    pub fn seconds_since(&self, other: &DateTime) -> (r: i64)
        requires
            self.wf(),
            other.wf(),
        ensures
            r as int == total_seconds(*self) - total_seconds(*other),
    {
        let a = self.to_seconds();
        let b = other.to_seconds();
        proof {
            lemma_total_seconds_bound(*self);
            lemma_total_seconds_bound(*other);
        }
        (a as i64) - (b as i64)
    }

    /// Component-wise comparison; chronological order for well-formed
    /// values.
    pub fn le(&self, other: &DateTime) -> (r: bool)
        ensures
            r == lex_le(*self, *other),
    {
        if self.year != other.year {
            self.year < other.year
        } else if self.month != other.month {
            self.month < other.month
        } else if self.day != other.day {
            self.day < other.day
        } else if self.hour != other.hour {
            self.hour < other.hour
        } else if self.minute != other.minute {
            self.minute < other.minute
        } else {
            self.second <= other.second
        }
    }

    /// Same calendar day.
    pub fn same_date_as(&self, other: &DateTime) -> (r: bool)
        ensures
            r == same_date(*self, *other),
    {
        self.year == other.year && self.month == other.month && self.day == other.day
    }
}

/// Days of the year preceding the first of the month.
pub fn days_before_month_exec(y: u16, m: u8) -> (r: u16)
    ensures
        r as int == days_before_month(y as int, m as int),
{
    let l: u16 = if is_leap_year_exec(y) {
        1
    } else {
        0
    };
    if m <= 1 {
        0
    } else if m == 2 {
        31
    } else if m == 3 {
        59 + l
    } else if m == 4 {
        90 + l
    } else if m == 5 {
        120 + l
    } else if m == 6 {
        151 + l
    } else if m == 7 {
        181 + l
    } else if m == 8 {
        212 + l
    } else if m == 9 {
        243 + l
    } else if m == 10 {
        273 + l
    } else if m == 11 {
        304 + l
    } else {
        334 + l
    }
}

proof fn lemma_leap_days_bound(y: int)
    requires
        y >= 0,
    ensures
        0 <= leap_days_before(y) <= y,
    decreases y,
{
    if y > 0 {
        lemma_leap_days_bound(y - 1);
    }
}

/// Every well-formed instant lies within the first 10000 years.
pub proof fn lemma_total_seconds_bound(dt: DateTime)
    requires
        dt.wf(),
    ensures
        0 <= total_seconds(dt) < 0x5_0000_0000_0000,
{
    lemma_leap_days_bound(dt.year as int);
    let o = day_ordinal(dt);
    assert(0 <= o <= 3660364);
    assert(o * 86400 <= 3660364 * 86400) by (nonlinear_arith)
        requires
            0 <= o <= 3660364,
    ;
}

/// The `YYYY-MM-DD` rendering of a date.
pub open spec fn fmt_ymd(dt: DateTime) -> Seq<char> {
    seq![
        digit_char(dt.year as int / 1000),
        digit_char((dt.year as int / 100) % 10),
        digit_char((dt.year as int / 10) % 10),
        digit_char(dt.year as int % 10),
        '-',
        digit_char(dt.month as int / 10),
        digit_char(dt.month as int % 10),
        '-',
        digit_char(dt.day as int / 10),
        digit_char(dt.day as int % 10),
    ]
}

/// The `HH:MM:SS` rendering of a time of day.
pub open spec fn fmt_hms(dt: DateTime) -> Seq<char> {
    seq![
        digit_char(dt.hour as int / 10),
        digit_char(dt.hour as int % 10),
        ':',
        digit_char(dt.minute as int / 10),
        digit_char(dt.minute as int % 10),
        ':',
        digit_char(dt.second as int / 10),
        digit_char(dt.second as int % 10),
    ]
}

/// The `HH:MM` rendering of a time of day.
pub open spec fn fmt_hm(dt: DateTime) -> Seq<char> {
    seq![
        digit_char(dt.hour as int / 10),
        digit_char(dt.hour as int % 10),
        ':',
        digit_char(dt.minute as int / 10),
        digit_char(dt.minute as int % 10),
    ]
}

/// The strict `YYYY-MM-DDTHH:MM:SS` timestamp rendering.
pub open spec fn fmt_rfc3339(dt: DateTime) -> Seq<char> {
    fmt_ymd(dt) + seq!['T'] + fmt_hms(dt)
}

/// The `YYYY-MM-DD HH:MM` display rendering.
pub open spec fn fmt_full(dt: DateTime) -> Seq<char> {
    fmt_ymd(dt) + seq![' '] + fmt_hm(dt)
}

/// The `YYYYMMDD-HHMMSS` rendering used in record file names. Its
/// lexicographic order agrees with chronological order (see
/// [`crate::store::lemma_file_name_order`]).
pub open spec fn fmt_compact(dt: DateTime) -> Seq<char> {
    seq![
        digit_char(dt.year as int / 1000),
        digit_char((dt.year as int / 100) % 10),
        digit_char((dt.year as int / 10) % 10),
        digit_char(dt.year as int % 10),
        digit_char(dt.month as int / 10),
        digit_char(dt.month as int % 10),
        digit_char(dt.day as int / 10),
        digit_char(dt.day as int % 10),
        '-',
        digit_char(dt.hour as int / 10),
        digit_char(dt.hour as int % 10),
        digit_char(dt.minute as int / 10),
        digit_char(dt.minute as int % 10),
        digit_char(dt.second as int / 10),
        digit_char(dt.second as int % 10),
    ]
}

/// Appends the two zero-padded decimal digits of `n`.
pub fn push_two_digits(v: &mut Vec<char>, n: u8)
    requires
        n < 100,
    ensures
        final(v)@ == old(v)@ + seq![digit_char(n as int / 10), digit_char(n as int % 10)],
{
    v.push(digit_exec(n / 10));
    v.push(digit_exec(n % 10));
    proof {
        assert(v@ =~= old(v)@ + seq![digit_char(n as int / 10), digit_char(n as int % 10)]);
    }
}

/// Appends the four zero-padded decimal digits of `n`.
pub fn push_four_digits(v: &mut Vec<char>, n: u16)
    requires
        n <= 9999,
    ensures
        final(v)@ == old(v)@ + seq![
            digit_char(n as int / 1000),
            digit_char((n as int / 100) % 10),
            digit_char((n as int / 10) % 10),
            digit_char(n as int % 10),
        ],
{
    v.push(digit_exec((n / 1000) as u8));
    v.push(digit_exec(((n / 100) % 10) as u8));
    v.push(digit_exec(((n / 10) % 10) as u8));
    v.push(digit_exec((n % 10) as u8));
    proof {
        assert(v@ =~= old(v)@ + seq![
            digit_char(n as int / 1000),
            digit_char((n as int / 100) % 10),
            digit_char((n as int / 10) % 10),
            digit_char(n as int % 10),
        ]);
    }
}

impl DateTime {
    /// Appends the `YYYY-MM-DD` rendering of the date.
    pub fn push_ymd(&self, v: &mut Vec<char>)
        requires
            self.wf(),
        ensures
            final(v)@ == old(v)@ + fmt_ymd(*self),
    {
        push_four_digits(v, self.year);
        v.push('-');
        push_two_digits(v, self.month);
        v.push('-');
        push_two_digits(v, self.day);
        proof {
            assert(v@ =~= old(v)@ + fmt_ymd(*self));
        }
    }

    /// Appends the `HH:MM:SS` rendering of the time of day.
    pub fn push_hms(&self, v: &mut Vec<char>)
        requires
            self.wf(),
        ensures
            final(v)@ == old(v)@ + fmt_hms(*self),
    {
        push_two_digits(v, self.hour);
        v.push(':');
        push_two_digits(v, self.minute);
        v.push(':');
        push_two_digits(v, self.second);
        proof {
            assert(v@ =~= old(v)@ + fmt_hms(*self));
        }
    }

    /// Appends the strict `YYYY-MM-DDTHH:MM:SS` timestamp rendering.
    pub fn push_rfc3339(&self, v: &mut Vec<char>)
        requires
            self.wf(),
        ensures
            final(v)@ == old(v)@ + fmt_rfc3339(*self),
    {
        self.push_ymd(v);
        v.push('T');
        self.push_hms(v);
        proof {
            assert(v@ =~= old(v)@ + fmt_rfc3339(*self));
        }
    }

    /// The strict `YYYY-MM-DDTHH:MM:SS` timestamp rendering.
    pub fn format_rfc3339(&self) -> (r: String)
        requires
            self.wf(),
        ensures
            r@ == fmt_rfc3339(*self),
    {
        let mut v: Vec<char> = Vec::new();
        self.push_rfc3339(&mut v);
        string_from_chars(&v)
    }

    /// The `YYYY-MM-DD` rendering of the date.
    pub fn format_ymd(&self) -> (r: String)
        requires
            self.wf(),
        ensures
            r@ == fmt_ymd(*self),
    {
        let mut v: Vec<char> = Vec::new();
        self.push_ymd(&mut v);
        string_from_chars(&v)
    }

    /// The `HH:MM:SS` rendering of the time of day.
    pub fn format_hms(&self) -> (r: String)
        requires
            self.wf(),
        ensures
            r@ == fmt_hms(*self),
    {
        let mut v: Vec<char> = Vec::new();
        self.push_hms(&mut v);
        string_from_chars(&v)
    }

    /// The `HH:MM` rendering of the time of day.
    pub fn format_hm(&self) -> (r: String)
        requires
            self.wf(),
        ensures
            r@ == fmt_hm(*self),
    {
        let mut v: Vec<char> = Vec::new();
        push_two_digits(&mut v, self.hour);
        v.push(':');
        push_two_digits(&mut v, self.minute);
        proof {
            assert(v@ =~= fmt_hm(*self));
        }
        string_from_chars(&v)
    }

    /// The `YYYY-MM-DD HH:MM` display rendering.
    pub fn format_full(&self) -> (r: String)
        requires
            self.wf(),
        ensures
            r@ == fmt_full(*self),
    {
        let mut v: Vec<char> = Vec::new();
        self.push_ymd(&mut v);
        v.push(' ');
        push_two_digits(&mut v, self.hour);
        v.push(':');
        push_two_digits(&mut v, self.minute);
        proof {
            assert(v@ =~= fmt_full(*self));
        }
        string_from_chars(&v)
    }

    /// Appends the `YYYYMMDD-HHMMSS` file-name rendering.
    pub fn push_compact(&self, v: &mut Vec<char>)
        requires
            self.wf(),
        ensures
            final(v)@ == old(v)@ + fmt_compact(*self),
    {
        push_four_digits(v, self.year);
        push_two_digits(v, self.month);
        push_two_digits(v, self.day);
        v.push('-');
        push_two_digits(v, self.hour);
        push_two_digits(v, self.minute);
        push_two_digits(v, self.second);
        proof {
            assert(v@ =~= old(v)@ + fmt_compact(*self));
        }
    }
}

/// The two-digit number at position `i`.
pub open spec fn parse2(s: Seq<char>, i: int) -> int {
    digit_val(s[i]) * 10 + digit_val(s[i + 1])
}

/// The four-digit number at position `i`.
pub open spec fn parse4(s: Seq<char>, i: int) -> int {
    digit_val(s[i]) * 1000 + digit_val(s[i + 1]) * 100 + digit_val(s[i + 2]) * 10 + digit_val(
        s[i + 3],
    )
}

/// The date-time the 19 characters of a strict timestamp denote.
pub open spec fn rfc3339_value(s: Seq<char>) -> DateTime {
    DateTime {
        year: parse4(s, 0) as u16,
        month: parse2(s, 5) as u8,
        day: parse2(s, 8) as u8,
        hour: parse2(s, 11) as u8,
        minute: parse2(s, 14) as u8,
        second: parse2(s, 17) as u8,
    }
}

/// Whether a character sequence is a strict `YYYY-MM-DDTHH:MM:SS`
/// timestamp denoting a well-formed date-time.
pub open spec fn rfc3339_valid(s: Seq<char>) -> bool {
    &&& s.len() == 19
    &&& is_digit(s[0]) && is_digit(s[1]) && is_digit(s[2]) && is_digit(s[3])
    &&& s[4] == '-'
    &&& is_digit(s[5]) && is_digit(s[6])
    &&& s[7] == '-'
    &&& is_digit(s[8]) && is_digit(s[9])
    &&& s[10] == 'T'
    &&& is_digit(s[11]) && is_digit(s[12])
    &&& s[13] == ':'
    &&& is_digit(s[14]) && is_digit(s[15])
    &&& s[16] == ':'
    &&& is_digit(s[17]) && is_digit(s[18])
    &&& rfc3339_value(s).wf()
}

/// Reads the two-digit number at position `i`, if both characters are
/// digits.
fn read2(s: &Vec<char>, i: usize) -> (r: Option<u8>)
    requires
        i + 1 < s@.len(),
    ensures
        match r {
            Some(n) => is_digit(s@[i as int]) && is_digit(s@[i as int + 1]) && n as int == parse2(
                s@,
                i as int,
            ) && n < 100,
            None => !(is_digit(s@[i as int]) && is_digit(s@[i as int + 1])),
        },
{
    // Binding the executable length keeps the index bound in scope.
    let n = s.len();
    if i + 1 >= n {
        return None;
    }
    match (digit_of(s[i]), digit_of(s[i + 1])) {
        (Some(a), Some(b)) => Some(a * 10 + b),
        _ => None,
    }
}

/// Parses a strict `YYYY-MM-DDTHH:MM:SS` timestamp.
///
/// Succeeds exactly on sequences that [`rfc3339_valid`] accepts, and then
/// returns the denoted date-time.
pub fn parse_rfc3339(s: &Vec<char>) -> (r: Option<DateTime>)
    ensures
        r == if rfc3339_valid(s@) {
            Some(rfc3339_value(s@))
        } else {
            None::<DateTime>
        },
{
    if s.len() != 19 {
        return None;
    }
    if !(s[4] == '-' && s[7] == '-' && s[10] == 'T' && s[13] == ':' && s[16] == ':') {
        return None;
    }
    let y = match (digit_of(s[0]), digit_of(s[1]), digit_of(s[2]), digit_of(s[3])) {
        (Some(a), Some(b), Some(c), Some(d)) => (a as u16) * 1000 + (b as u16) * 100 + (c as u16)
            * 10 + (d as u16),
        _ => {
            return None;
        },
    };
    let mo = match read2(s, 5) {
        Some(n) => n,
        None => {
            return None;
        },
    };
    let d = match read2(s, 8) {
        Some(n) => n,
        None => {
            return None;
        },
    };
    let h = match read2(s, 11) {
        Some(n) => n,
        None => {
            return None;
        },
    };
    let mi = match read2(s, 14) {
        Some(n) => n,
        None => {
            return None;
        },
    };
    let sec = match read2(s, 17) {
        Some(n) => n,
        None => {
            return None;
        },
    };
    DateTime::new(y, mo, d, h, mi, sec)
}

/// Digit-by-digit decomposition of a number below 10000.
proof fn lemma_four_digit_value(n: int)
    requires
        0 <= n <= 9999,
    ensures
        (n / 1000) * 1000 + ((n / 100) % 10) * 100 + ((n / 10) % 10) * 10 + n % 10 == n,
        0 <= n / 1000 < 10,
        0 <= (n / 100) % 10 < 10,
        0 <= (n / 10) % 10 < 10,
        0 <= n % 10 < 10,
{
    assert((n / 1000) * 1000 + ((n / 100) % 10) * 100 + ((n / 10) % 10) * 10 + n % 10 == n
        && 0 <= n / 1000 < 10) by (nonlinear_arith)
        requires
            0 <= n <= 9999,
    ;
}

/// Digit-by-digit decomposition of a number below 100.
proof fn lemma_two_digit_value(n: int)
    requires
        0 <= n <= 99,
    ensures
        (n / 10) * 10 + n % 10 == n,
        0 <= n / 10 < 10,
        0 <= n % 10 < 10,
{
}

/// Formatting a well-formed date-time as a strict timestamp and parsing
/// it back yields the same date-time.
pub proof fn lemma_rfc3339_round_trip(dt: DateTime)
    requires
        dt.wf(),
    ensures
        rfc3339_valid(fmt_rfc3339(dt)),
        rfc3339_value(fmt_rfc3339(dt)) == dt,
{
    let s = fmt_rfc3339(dt);
    lemma_four_digit_value(dt.year as int);
    lemma_two_digit_value(dt.month as int);
    lemma_two_digit_value(dt.day as int);
    lemma_two_digit_value(dt.hour as int);
    lemma_two_digit_value(dt.minute as int);
    lemma_two_digit_value(dt.second as int);
    assert(s.len() == 19);
    assert(s[0] == digit_char(dt.year as int / 1000));
    assert(s[5] == digit_char(dt.month as int / 10));
    assert(s[10] == 'T');
    assert(parse4(s, 0) == dt.year as int);
    assert(parse2(s, 5) == dt.month as int);
    assert(parse2(s, 8) == dt.day as int);
    assert(parse2(s, 11) == dt.hour as int);
    assert(parse2(s, 14) == dt.minute as int);
    assert(parse2(s, 17) == dt.second as int);
    assert(rfc3339_value(s) == dt);
}

} // verus!
