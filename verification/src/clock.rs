//! The wall clock, read through the outside time library and validated
//! into the library's own date-time type.

use chrono::{Datelike, Timelike};
use vstd::prelude::*;

verus! {

use crate::datetime::DateTime;

/// Relies on chrono: `Local::now().naive_local()` read through the
/// `Datelike` and `Timelike` accessors, whose documentation bounds the
/// month by 12, the day by 31, the hour by 23 and the minute and second
/// by 59; the year is any `i32`.
#[verifier::external_body]
fn read_clock() -> (r: (i32, u8, u8, u8, u8, u8))
    ensures
        1 <= r.1 <= 12,
        1 <= r.2 <= 31,
        r.3 < 24,
        r.4 < 60,
        r.5 < 60,
{
    let n = chrono::Local::now().naive_local();
    (
        n.year(),
        n.month() as u8,
        n.day() as u8,
        n.hour() as u8,
        n.minute() as u8,
        n.second() as u8,
    )
}

/// The current local wall-clock time as a well-formed date-time, or
/// nothing while the system clock stands outside the supported years or
/// reports a day its month does not have.
pub fn current_datetime() -> (r: Option<DateTime>)
    ensures
        match r {
            Some(dt) => dt.wf(),
            None => true,
        },
{
    let (y, mo, d, h, mi, s) = read_clock();
    if y < 0 || y > 9999 {
        return None;
    }
    DateTime::new(y as u16, mo, d, h, mi, s)
}

} // verus!
