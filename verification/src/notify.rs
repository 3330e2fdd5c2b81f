//! The text of the warning that goes out before the limit.

use crate::text::{chars_of, push_chars};
use vstd::prelude::*;

verus! {

/// A number of seconds in words, such as `1h 1m 1s`, as
/// `humantime::format_duration` writes it. How it chooses the words is the
/// business of the `humantime` crate and is not spelled out here.
pub uninterp spec fn duration_text(seconds: u64) -> Seq<char>;

/// Calls `humantime::format_duration` on a whole number of seconds and
/// takes the text that it displays. Taken on trust, not proved: the text
/// depends on the number of seconds alone.
#[verifier::external_body]
fn format_seconds(seconds: u64) -> (text: String)
    ensures
        text@ == duration_text(seconds),
{
    humantime::format_duration(std::time::Duration::from_secs(seconds)).to_string()
}

/// A number of seconds in words. A negative number stands for the unsigned
/// number with the same 64 bits.
pub fn fmt_time(seconds: i64) -> (text: String)
    ensures
        text@ == duration_text(seconds as u64),
{
    format_seconds(#[verifier::truncate] (seconds as u64))
}

/// The warning that `remaining` seconds are left.
pub open spec fn warning_text(remaining: u64) -> Seq<char> {
    "Stopping in "@ + duration_text(remaining)
}

/// The warning that `remaining` seconds are left.
pub fn stop_warning_message(remaining: u64) -> (msg: String)
    ensures
        msg@ == warning_text(remaining),
{
    let mut msg = "Stopping in ".to_owned();
    let left = format_seconds(remaining);
    push_chars(&mut msg, &chars_of(left.as_str()));
    msg
}

} // verus!
