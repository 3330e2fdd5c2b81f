use parental_watchdog::clock::Moment;
use parental_watchdog::enforce::{Action, WarnState};
use parental_watchdog::filter::{Matched, Pattern};
use parental_watchdog::ledger::{save_apps, Ledger};
use parental_watchdog::sample::{ProcessSample, SampleError};
use parental_watchdog::watchdog::{add_to_apps, add_to_apps_at, observe, Outcome, Tick};

fn at(epoch: i64) -> Moment {
    Moment { epoch, date: "2024-05-01".to_string() }
}

fn recorded(r: Result<Outcome, SampleError>) -> Tick {
    match r {
        Ok(Outcome::Recorded(tick)) => tick,
        Ok(Outcome::Skipped) => panic!("the process was not watched"),
        Err(e) => panic!("the sample could not be read: {:?}", e),
    }
}

fn tick(apps: &mut Ledger, warned: &WarnState, elapsed: u64, epoch: i64) -> Tick {
    let cmd = Pattern::new("game");
    assert!(cmd.is_some());
    let ps_out = format!("{:>7} game            /usr/bin/game --fullscreen\n", elapsed);
    recorded(add_to_apps_at(apps, warned, 7, &cmd, &None, "Some window", 100, 20, &ps_out, &at(epoch)))
}

#[test]
fn a_session_runs_into_the_warning_and_then_the_limit() {
    let mut apps = Ledger::new();
    let mut warned = WarnState::new();

    let first = tick(&mut apps, &warned, 0, 1000);
    assert_eq!(first.key, "app:game:7:1000:2024-05-01");
    assert_eq!(first.entry, 0);
    assert_eq!(first.total, 0);
    assert_eq!(first.action, Action::Idle);

    let second = tick(&mut apps, &warned, 85, 1085);
    assert_eq!(second.key, "app:game:7:1000:2024-05-01");
    assert_eq!(second.entry, 85);
    assert_eq!(second.total, 85);
    assert_eq!(second.action, Action::Warn { remaining: 15 });
    warned.warning_sent(&second.today);

    let third = tick(&mut apps, &warned, 90, 1090);
    assert_eq!(third.total, 90);
    assert_eq!(third.action, Action::Idle);

    let fourth = tick(&mut apps, &warned, 100, 1100);
    assert_eq!(fourth.total, 100);
    assert_eq!(fourth.action, Action::Kill);

    let fifth = tick(&mut apps, &warned, 110, 1110);
    assert_eq!(fifth.total, 110);
    assert_eq!(fifth.action, Action::Kill);
    assert_eq!(apps.len(), 1);
}

#[test]
fn what_a_tick_tells() {
    let mut apps = Ledger::new();
    let warned = WarnState::new();
    let tick = tick(&mut apps, &warned, 30, 1000);
    assert_eq!(tick.matched, Matched { by_cmd: true, by_title: false });
    assert_eq!(tick.comm, "game");
    assert_eq!(tick.command, "/usr/bin/game --fullscreen");
    assert_eq!(tick.key, "app:game:7:970:2024-05-01");
    assert_eq!(tick.today, "2024-05-01");
    assert_eq!(apps.get("app:game:7:970:2024-05-01"), Some(30));
}

#[test]
fn jitter_in_the_run_time_makes_a_second_key_that_merges() {
    let mut apps = Ledger::new();
    let warned = WarnState::new();
    let first = tick(&mut apps, &warned, 50, 1050);
    let second = tick(&mut apps, &warned, 59, 1060);
    assert_eq!(first.key, "app:game:7:1000:2024-05-01");
    assert_eq!(second.key, "app:game:7:1001:2024-05-01");
    assert_eq!(apps.len(), 2);
    assert_eq!(second.total, 60);
}

#[test]
fn a_process_that_matches_nothing_leaves_no_trace() {
    let mut apps = Ledger::new();
    apps.get_or_create("app:game:7:1000:2024-05-01", 5);
    let before = save_apps(&apps);
    let warned = WarnState::new();
    let cmd = Pattern::new("^game$");
    let title = Pattern::new("Steam");
    let r = add_to_apps_at(
        &mut apps,
        &warned,
        7,
        &cmd,
        &title,
        "Terminal",
        100,
        20,
        "99 bash /bin/bash -l\n",
        &at(2000),
    );
    assert!(matches!(r, Ok(Outcome::Skipped)));
    assert_eq!(apps.len(), 1);
    assert_eq!(save_apps(&apps), before);
}

#[test]
fn without_patterns_nothing_is_watched() {
    let mut apps = Ledger::new();
    let warned = WarnState::new();
    let r = add_to_apps_at(&mut apps, &warned, 7, &None, &None, "t", 100, 20, "9 a b", &at(2000));
    assert!(matches!(r, Ok(Outcome::Skipped)));
    assert_eq!(apps.len(), 0);
}

#[test]
fn a_process_is_watched_by_its_title() {
    let mut apps = Ledger::new();
    let warned = WarnState::new();
    let cmd = Pattern::new("^game$");
    let title = Pattern::new("Steam");
    let r = add_to_apps_at(
        &mut apps,
        &warned,
        9,
        &cmd,
        &title,
        "Steam - Library",
        7200,
        900,
        "12 steam /usr/bin/steam\n",
        &at(2000),
    );
    let tick = recorded(r);
    assert_eq!(tick.matched, Matched { by_cmd: false, by_title: true });
    assert_eq!(tick.key, "app:steam:9:1988:2024-05-01");
    assert_eq!(tick.total, 12);
    assert_eq!(tick.action, Action::Idle);
}

#[test]
fn a_line_that_cannot_be_read_is_an_error() {
    let mut apps = Ledger::new();
    let warned = WarnState::new();
    let cmd = Pattern::new(".");
    for (ps_out, error) in [
        ("", SampleError::MissingEtimes),
        ("  \n", SampleError::MissingEtimes),
        ("12", SampleError::MissingComm),
        ("x y z", SampleError::BadEtimes),
    ] {
        let r = add_to_apps_at(&mut apps, &warned, 7, &cmd, &None, "t", 100, 20, ps_out, &at(1));
        match r {
            Err(e) => assert_eq!(e, error),
            Ok(_) => panic!("read a sample from {:?}", ps_out),
        }
        assert_eq!(apps.len(), 0);
    }
}

#[test]
fn observe_takes_the_match_as_given() {
    let mut apps = Ledger::new();
    let warned = WarnState::new();
    let sample = ProcessSample { seconds: 40, comm: "vi".to_string(), command: "vi notes".to_string() };
    let skipped = observe(
        &mut apps,
        &warned,
        &sample,
        3,
        Matched { by_cmd: false, by_title: false },
        100,
        20,
        &at(500),
    );
    assert!(matches!(skipped, Outcome::Skipped));
    assert_eq!(apps.len(), 0);
    let seen = observe(
        &mut apps,
        &warned,
        &sample,
        3,
        Matched { by_cmd: true, by_title: true },
        100,
        20,
        &at(500),
    );
    let tick = recorded(Ok(seen));
    assert_eq!(tick.key, "app:vi:3:460:2024-05-01");
    assert_eq!(tick.entry, 40);
    assert_eq!(tick.total, 40);
}

#[test]
fn an_observation_now_reads_the_clock() {
    let mut apps = Ledger::new();
    let warned = WarnState::new();
    let cmd = Pattern::new("game");
    let r = add_to_apps(&mut apps, &warned, 7, &cmd, &None, "w", 7200, 900, "30 game /usr/bin/game");
    let tick = recorded(r);
    let date: Vec<char> = tick.today.chars().collect();
    assert_eq!(date.len(), 10);
    assert_eq!(date[4], '-');
    assert_eq!(date[7], '-');
    assert!(date.iter().filter(|c| c.is_ascii_digit()).count() == 8);
    assert!(tick.key.starts_with("app:game:7:"));
    assert!(tick.key.ends_with(&tick.today));
    assert_eq!(tick.entry, 30);
    assert_eq!(tick.total, 30);
    assert_eq!(tick.action, Action::Idle);
    let start: u64 = tick.key.split(':').nth(3).unwrap().parse().unwrap();
    assert!(start > 1_600_000_000);
}
