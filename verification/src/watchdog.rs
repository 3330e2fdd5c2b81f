//! One observation of one window: read what the process table says of its
//! process, see whether the process is watched, put its run time on record,
//! add up the day, and decide what is to be done.

use crate::clock::{date_format, read_clock, Moment};
use crate::enforce::{decision, law_kill_at_limit, Action, WarnState};
use crate::filter::{match_sample, rx_matches, Matched, Pattern};
use crate::key::{key_text, session_key, session_start, start_of_session};
use crate::ledger::{
    distinct_keys, law_total_never_decreases, map_of, put, recorded, sum_seconds_for_today,
    todays_total, Ledger, Entries,
};
use crate::sample::{parse_ps_output, sample_of, ProcessSample, SampleError};
use vstd::prelude::*;

verus! {

/// What an observation of a watched process came to.
pub struct Tick {
    /// By which pattern the process is watched.
    pub matched: Matched,
    /// The name of the command.
    pub comm: String,
    /// The command line.
    pub command: String,
    /// The key of the session.
    pub key: String,
    /// The seconds now on record for the session.
    pub entry: u64,
    /// The day's total, in seconds.
    pub total: u64,
    /// The day.
    pub today: String,
    /// What is to be done.
    pub action: Action,
}

/// What an observation came to.
pub enum Outcome {
    /// The process is not watched; nothing was put on record.
    Skipped,
    /// The process is watched.
    Recorded(Tick),
}

/// The key of the session of a process that has run for `seconds` at the
/// second `epoch` of the day `date`.
pub open spec fn sample_key(
    comm: Seq<char>,
    pid: u32,
    seconds: u64,
    epoch: i64,
    date: Seq<char>,
) -> Seq<char> {
    key_text(comm, pid, session_start(epoch, seconds), date)
}

/// `tick` is what the observation of a watched process comes to, and `after`
/// the ledger that it leaves.
pub open spec fn tick_of(
    tick: Tick,
    before: Entries,
    after: Entries,
    comm: Seq<char>,
    command: Seq<char>,
    pid: u32,
    seconds: u64,
    matched: Matched,
    limit: u64,
    warn_before: u64,
    warned: Seq<char>,
    epoch: i64,
    date: Seq<char>,
) -> bool {
    &&& tick.matched == matched
    &&& tick.comm@ == comm
    &&& tick.command@ == command
    &&& tick.key@ == sample_key(comm, pid, seconds, epoch, date)
    &&& tick.entry == recorded(map_of(before), tick.key@, seconds)
    &&& after == put(before, tick.key@, tick.entry)
    &&& tick.total == todays_total(after, date)
    &&& tick.today@ == date
    &&& tick.action == decision(tick.total, limit, warn_before, warned, date)
}

/// `r` is what the observation of a window comes to at the second `epoch`
/// of the day `date`, and `after` the ledger that it leaves, when the
/// process table says `ps_out` of the window's process.
pub open spec fn step_at(
    before: Entries,
    after: Entries,
    r: Result<Outcome, SampleError>,
    pid: u32,
    cmd_rx: Option<Pattern>,
    title_rx: Option<Pattern>,
    title: Seq<char>,
    limit: u64,
    warn_before: u64,
    warned: Seq<char>,
    ps_out: Seq<char>,
    epoch: i64,
    date: Seq<char>,
) -> bool {
    match sample_of(ps_out) {
        Err(e) => r == Err::<Outcome, SampleError>(e) && after == before,
        Ok((seconds, comm, command)) => {
            let matched = Matched {
                by_cmd: rx_matches(cmd_rx, command),
                by_title: rx_matches(title_rx, title),
            };
            if matched.any() {
                r matches Ok(Outcome::Recorded(tick)) && tick_of(
                    tick,
                    before,
                    after,
                    comm,
                    command,
                    pid,
                    seconds,
                    matched,
                    limit,
                    warn_before,
                    warned,
                    epoch,
                    date,
                )
            } else {
                r matches Ok(Outcome::Skipped) && after == before
            }
        },
    }
}

/// Takes the sample of a process into account, given which patterns it
/// matched. A process that matched none leaves the ledger as it is.
pub fn observe(
    apps: &mut Ledger,
    warned: &WarnState,
    sample: &ProcessSample,
    pid: u32,
    matched: Matched,
    limit: u64,
    warn_before: u64,
    now: &Moment,
) -> (outcome: Outcome)
    ensures
        !matched.any() ==> (outcome is Skipped && final(apps).entries() == old(apps).entries()),
        matched.any() ==> (outcome matches Outcome::Recorded(tick) && tick_of(
            tick,
            old(apps).entries(),
            final(apps).entries(),
            sample.comm@,
            sample.command@,
            pid,
            sample.seconds,
            matched,
            limit,
            warn_before,
            warned@,
            now.epoch,
            now.date@,
        )),
{
    if !matched.is_any() {
        return Outcome::Skipped;
    }
    let start = start_of_session(now.epoch, sample.seconds);
    let key = session_key(sample.comm.as_str(), pid, start, now.date.as_str());
    let entry = apps.get_or_create(key.as_str(), sample.seconds);
    let total = sum_seconds_for_today(apps, now.date.as_str());
    let action = warned.decide(total, limit, warn_before, now.date.as_str());
    Outcome::Recorded(
        Tick {
            matched,
            comm: sample.comm.clone(),
            command: sample.command.clone(),
            key,
            entry,
            total,
            today: now.date.clone(),
            action,
        },
    )
}

/// Observes a window at the moment `now`: reads `ps_out`, the line of the
/// process table for the window's process, holds command line and title
/// against the patterns, and takes a watched process into account.
pub fn add_to_apps_at(
    apps: &mut Ledger,
    warned: &WarnState,
    pid: u32,
    cmd_rx: &Option<Pattern>,
    title_rx: &Option<Pattern>,
    title: &str,
    limit: u64,
    warn_before: u64,
    ps_out: &str,
    now: &Moment,
) -> (r: Result<Outcome, SampleError>)
    ensures
        step_at(
            old(apps).entries(),
            final(apps).entries(),
            r,
            pid,
            *cmd_rx,
            *title_rx,
            title@,
            limit,
            warn_before,
            warned@,
            ps_out@,
            now.epoch,
            now.date@,
        ),
{
    match parse_ps_output(ps_out) {
        Err(e) => Err(e),
        Ok(sample) => {
            let matched = match_sample(sample.command.as_str(), title, cmd_rx, title_rx);
            Ok(observe(apps, warned, &sample, pid, matched, limit, warn_before, now))
        },
    }
}

/// Observes a window now. The clock is read once, and the observation is
/// what `add_to_apps_at` makes of that reading.
pub fn add_to_apps(
    apps: &mut Ledger,
    warned: &WarnState,
    pid: u32,
    cmd_rx: &Option<Pattern>,
    title_rx: &Option<Pattern>,
    title: &str,
    limit: u64,
    warn_before: u64,
    ps_out: &str,
) -> (r: Result<Outcome, SampleError>)
    ensures
        exists|epoch: i64, date: Seq<char>| #[trigger]
            step_at(
                old(apps).entries(),
                final(apps).entries(),
                r,
                pid,
                *cmd_rx,
                *title_rx,
                title@,
                limit,
                warn_before,
                warned@,
                ps_out@,
                epoch,
                date,
            ),
{
    let now = read_clock(date_format());
    let r = add_to_apps_at(
        apps,
        warned,
        pid,
        cmd_rx,
        title_rx,
        title,
        limit,
        warn_before,
        ps_out,
        &now,
    );
    assert(step_at(
        old(apps).entries(),
        apps.entries(),
        r,
        pid,
        *cmd_rx,
        *title_rx,
        title@,
        limit,
        warn_before,
        warned@,
        ps_out@,
        now.epoch,
        now.date@,
    ));
    r
}

/// Once the day's total has reached the limit, it stays there: after any
/// further observation the total is at the limit or beyond, and the process
/// is to be ended.
pub proof fn law_kill_stays(
    l: Entries,
    key: Seq<char>,
    observed: u64,
    today: Seq<char>,
    limit: u64,
    warn_before: u64,
    warned: Seq<char>,
)
    requires
        distinct_keys(l),
        todays_total(l, today) >= limit,
    ensures
        ({
            let after = put(l, key, recorded(map_of(l), key, observed));
            &&& todays_total(after, today) >= limit
            &&& forall|total: u64|
                total == todays_total(after, today) ==> #[trigger] decision(
                    total,
                    limit,
                    warn_before,
                    warned,
                    today,
                ) == Action::Kill
        }),
{
    law_total_never_decreases(l, key, observed, today);
    let after = put(l, key, recorded(map_of(l), key, observed));
    assert forall|total: u64| total == todays_total(after, today) implies #[trigger] decision(
        total,
        limit,
        warn_before,
        warned,
        today,
    ) == Action::Kill by {
        law_kill_at_limit(total, limit, warn_before, warned, today);
    }
}

} // verus!
