//! The error kinds the library reports.

use vstd::prelude::*;

verus! {

use crate::text::{chars_of_str, string_from_chars};

/// What went wrong during an operation.
#[derive(Debug, PartialEq, Eq)]
pub enum TrackError {
    /// A date-time input could not be resolved; carries the offending
    /// input for the error message.
    InvalidDate(String),
    /// A stored record was malformed.
    MalformedRecord,
    /// No event was found where one was needed.
    NotFound,
}

/// The message text for an unresolvable date input.
pub open spec fn invalid_date_message(input: Seq<char>) -> Seq<char> {
    "Unable to parse date \""@ + input + "\""@
}

impl TrackError {
    /// A printable message for the error.
    pub fn message(&self) -> (r: String)
        ensures
            match self {
                TrackError::InvalidDate(input) => r@ == invalid_date_message(input@),
                TrackError::MalformedRecord => r@ == "Unable to parse the stored event"@,
                TrackError::NotFound => r@ == "Unable to find the last tracked event"@,
            },
    {
        match self {
            TrackError::InvalidDate(input) => {
                let mut v = chars_of_str("Unable to parse date \"");
                let mut ic = chars_of_str(input.as_str());
                v.append(&mut ic);
                let mut q = chars_of_str("\"");
                v.append(&mut q);
                proof {
                    assert(v@ =~= invalid_date_message(input@));
                }
                string_from_chars(&v)
            },
            TrackError::MalformedRecord => "Unable to parse the stored event".to_owned(),
            TrackError::NotFound => "Unable to find the last tracked event".to_owned(),
        }
    }
}

} // verus!
