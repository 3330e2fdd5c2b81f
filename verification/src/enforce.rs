//! The decision taken after each observation: nothing, a warning, or the
//! end of the process. A warning is due once a day, in the time before the
//! limit; once the limit is reached the process is to be ended, at every
//! observation anew.

use crate::key::same_chars;
use crate::text::{chars_of, push_chars};
use vstd::prelude::*;

verus! {

/// What is to be done about the observed process.
#[derive(Clone, Copy, Debug, PartialEq, Eq, Structural)]
pub enum Action {
    /// Nothing.
    Idle,
    /// Tell the user that `remaining` seconds are left.
    Warn { remaining: u64 },
    /// Ask the process to end.
    Kill,
}

/// `total` lies in the time before the limit in which a warning is due:
/// less than `warn_before` seconds are left, and the limit is not reached.
pub open spec fn in_warning_window(total: u64, limit: u64, warn_before: u64) -> bool {
    limit - warn_before < total < limit
}

/// The action that is due when the day's total is `total`, the last warning
/// went out on the day `warned`, and the day is `today`.
pub open spec fn decision(
    total: u64,
    limit: u64,
    warn_before: u64,
    warned: Seq<char>,
    today: Seq<char>,
) -> Action {
    if in_warning_window(total, limit, warn_before) && warned != today {
        Action::Warn { remaining: (limit - total) as u64 }
    } else if total >= limit {
        Action::Kill
    } else {
        Action::Idle
    }
}

/// The day for which the last warning went out; no day at first.
pub struct WarnState {
    warned: String,
}

impl View for WarnState {
    type V = Seq<char>;

    closed spec fn view(&self) -> Seq<char> {
        self.warned@
    }
}

impl WarnState {
    /// No warning has gone out yet.
    pub fn new() -> (state: WarnState)
        ensures
            state@ == Seq::<char>::empty(),
    {
        WarnState { warned: String::new() }
    }

    /// Takes note that the warning for `today` has gone out.
    pub fn warning_sent(&mut self, today: &str)
        ensures
            final(self)@ == today@,
    {
        let mut warned = String::new();
        push_chars(&mut warned, &chars_of(today));
        assert(Seq::<char>::empty() + today@ =~= today@);
        self.warned = warned;
    }

    /// Whether the warning for `today` has gone out.
    pub fn warned_on(&self, today: &str) -> (yes: bool)
        ensures
            yes == (self@ == today@),
    {
        same_chars(&chars_of(self.warned.as_str()), &chars_of(today))
    }

    /// The action that is due when the day's total is `total`.
    pub fn decide(&self, total: u64, limit: u64, warn_before: u64, today: &str) -> (action: Action)
        ensures
            action == decision(total, limit, warn_before, self@, today@),
    {
        let near = warn_before > limit || total > limit - warn_before;
        if near && total < limit && !self.warned_on(today) {
            Action::Warn { remaining: limit - total }
        } else if total >= limit {
            Action::Kill
        } else {
            Action::Idle
        }
    }
}

/// How many warnings go out over a run of observations on the day `today`
/// with the day's totals `totals`, when each warning that is due goes out.
pub open spec fn warnings_sent(
    warned: Seq<char>,
    limit: u64,
    warn_before: u64,
    today: Seq<char>,
    totals: Seq<u64>,
) -> nat
    decreases totals.len(),
{
    if totals.len() == 0 {
        0
    } else if decision(totals[0], limit, warn_before, warned, today) is Warn {
        1 + warnings_sent(today, limit, warn_before, today, totals.drop_first())
    } else {
        warnings_sent(warned, limit, warn_before, today, totals.drop_first())
    }
}

/// Once the warning for a day has gone out, none is due on that day,
/// whatever the total.
pub proof fn law_no_second_warning(total: u64, limit: u64, warn_before: u64, today: Seq<char>)
    ensures
        !(decision(total, limit, warn_before, today, today) is Warn),
{
}

/// At most one warning goes out on a day, however many observations fall
/// into the time before the limit.
pub proof fn law_one_warning_a_day(
    warned: Seq<char>,
    limit: u64,
    warn_before: u64,
    today: Seq<char>,
    totals: Seq<u64>,
)
    ensures
        warnings_sent(warned, limit, warn_before, today, totals) <= 1,
        warned == today ==> warnings_sent(warned, limit, warn_before, today, totals) == 0,
    decreases totals.len(),
{
    if totals.len() > 0 {
        law_one_warning_a_day(today, limit, warn_before, today, totals.drop_first());
        law_one_warning_a_day(warned, limit, warn_before, today, totals.drop_first());
    }
}

/// With the limit reached, the process is to be ended, whether or not a
/// warning has gone out.
pub proof fn law_kill_at_limit(
    total: u64,
    limit: u64,
    warn_before: u64,
    warned: Seq<char>,
    today: Seq<char>,
)
    requires
        total >= limit,
    ensures
        decision(total, limit, warn_before, warned, today) == Action::Kill,
{
}

/// A warning and the end of the process are never due together, and a
/// warning tells how much time is left.
pub proof fn law_warning_before_limit(
    total: u64,
    limit: u64,
    warn_before: u64,
    warned: Seq<char>,
    today: Seq<char>,
)
    ensures
        decision(total, limit, warn_before, warned, today) matches Action::Warn { remaining }
            ==> total < limit && remaining == limit - total && remaining < warn_before,
{
}

} // verus!
