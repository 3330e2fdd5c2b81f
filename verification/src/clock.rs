//! The wall clock, read once for each observation.

use vstd::prelude::*;

verus! {

/// A moment: the seconds since the start of 1970 (UTC), and the local
/// calendar date as `YYYY-MM-DD`.
pub struct Moment {
    pub epoch: i64,
    pub date: String,
}

/// How the date of a moment is written: year, month and day, with hyphens
/// between them.
pub open spec fn date_format_text() -> Seq<char> {
    "%Y-%m-%d"@
}

/// How the date of a moment is written.
pub fn date_format() -> (format: &'static str)
    ensures
        format@ == date_format_text(),
{
    "%Y-%m-%d"
}

/// Calls `chrono::Local::now` once, and on what it returns `timestamp` for
/// the seconds and `format` with `date_format` for the date. Nothing is
/// claimed of a reading: whoever reads the clock has to do with any moment.
/// No other format is taken, since `chrono` does not write a date for every
/// text that it is handed as a format. `chrono` gives up where the system
/// clock stands before 1970 or the local offset cannot be found.
#[verifier::external_body]
pub(crate) fn read_clock(date_format: &str) -> (now: Moment)
    requires
        date_format@ == date_format_text(),
{
    let now = chrono::Local::now();
    Moment { epoch: now.timestamp(), date: now.format(date_format).to_string() }
}

} // verus!
