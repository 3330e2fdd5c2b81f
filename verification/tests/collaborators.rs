use parental_watchdog::filter::{match_sample, matches_rx, Matched, Pattern};
use parental_watchdog::notify::{fmt_time, stop_warning_message};
use parental_watchdog::sample::{parse_ps_output, SampleError};

#[test]
fn a_pattern_that_compiles() {
    let pattern = Pattern::new("^fire(fox|bird)$");
    assert!(pattern.is_some());
    let pattern = pattern.unwrap();
    assert_eq!(pattern.as_str(), "^fire(fox|bird)$");
    assert!(pattern.is_match("firefox"));
    assert!(pattern.is_match("firebird"));
    assert!(!pattern.is_match("firefox "));
    assert!(!pattern.is_match("fire"));
}

#[test]
fn a_pattern_that_does_not_compile() {
    assert!(Pattern::new("foo(bar").is_none());
    assert!(Pattern::new("[a-").is_none());
    assert!(Pattern::new("*").is_none());
    assert!(Pattern::new("").is_some());
}

#[test]
fn why_a_pattern_does_not_compile() {
    for source in ["foo(bar", "[a-", "*", "a{2,1}", "\\"] {
        let expected = format!("{:?}", regex::Regex::new(source).unwrap_err());
        match Pattern::compile(source) {
            Err(text) => assert_eq!(text, expected),
            Ok(_) => panic!("{:?} compiled", source),
        }
    }
    match Pattern::compile("foo(bar") {
        Err(text) => assert!(text.contains("unclosed group")),
        Ok(_) => panic!("compiled"),
    }
    match Pattern::compile("^fire(fox|bird)$") {
        Ok(pattern) => assert_eq!(pattern.as_str(), "^fire(fox|bird)$"),
        Err(text) => panic!("{}", text),
    }
}

#[test]
fn a_pattern_matches_anywhere() {
    let pattern = Pattern::new("game").unwrap();
    assert!(pattern.is_match("/usr/bin/game --fullscreen"));
    assert!(pattern.is_match("game"));
    assert!(!pattern.is_match("gam"));
    assert!(!pattern.is_match("GAME"));
    assert!(!pattern.is_match(""));
    assert!(Pattern::new("").unwrap().is_match(""));
    assert!(Pattern::new("(?i)game").unwrap().is_match("GAME"));
}

#[test]
fn no_pattern_matches_nothing() {
    assert!(!matches_rx("anything", &None));
    assert!(!matches_rx("", &None));
    assert!(matches_rx("anything", &Pattern::new("thing")));
    assert!(!matches_rx("anything", &Pattern::new("^thing")));
}

#[test]
fn either_pattern_makes_a_process_watched() {
    let cmd = Pattern::new("steam");
    let title = Pattern::new("Minecraft");
    let both = match_sample("/usr/bin/steam", "Minecraft 1.20", &cmd, &title);
    assert_eq!(both, Matched { by_cmd: true, by_title: true });
    assert!(both.is_any());
    let by_cmd = match_sample("/usr/bin/steam", "Library", &cmd, &title);
    assert_eq!(by_cmd, Matched { by_cmd: true, by_title: false });
    assert!(by_cmd.is_any());
    let by_title = match_sample("java -jar mc.jar", "Minecraft 1.20", &cmd, &title);
    assert_eq!(by_title, Matched { by_cmd: false, by_title: true });
    assert!(by_title.is_any());
    let neither = match_sample("bash", "Terminal", &cmd, &title);
    assert_eq!(neither, Matched { by_cmd: false, by_title: false });
    assert!(!neither.is_any());
    let crossed = match_sample("Minecraft", "steam", &cmd, &title);
    assert!(!crossed.is_any());
    let title_only = match_sample("Minecraft", "Minecraft", &None, &title);
    assert_eq!(title_only, Matched { by_cmd: false, by_title: true });
}

#[test]
fn seconds_in_words() {
    assert_eq!(fmt_time(0), "0s");
    assert_eq!(fmt_time(15), "15s");
    assert_eq!(fmt_time(900), "15m");
    assert_eq!(fmt_time(3661), "1h 1m 1s");
    assert_eq!(fmt_time(7200), "2h");
    assert_eq!(fmt_time(86400 * 2 + 5), "2days 5s");
}

#[test]
fn negative_seconds_stand_for_their_bits() {
    assert_eq!(fmt_time(-1), "584542046090years 7months 15days 17h 5m 3s");
}

#[test]
fn the_warning_says_how_long_is_left() {
    assert_eq!(stop_warning_message(15), "Stopping in 15s");
    assert_eq!(stop_warning_message(900), "Stopping in 15m");
    assert_eq!(stop_warning_message(0), "Stopping in 0s");
}

#[test]
fn a_line_of_the_process_table() {
    let sample = parse_ps_output("   1234 bash            /bin/bash -c   sleep 5\n").unwrap_or_else(|e| panic!("{:?}", e));
    assert_eq!(sample.seconds, 1234);
    assert_eq!(sample.comm, "bash");
    assert_eq!(sample.command, "/bin/bash -c sleep 5");
}

#[test]
fn a_line_without_a_command_line() {
    let sample = parse_ps_output("5 kworker").unwrap_or_else(|e| panic!("{:?}", e));
    assert_eq!(sample.seconds, 5);
    assert_eq!(sample.comm, "kworker");
    assert_eq!(sample.command, "");
}

#[test]
fn lines_that_cannot_be_read() {
    assert_eq!(parse_ps_output("").err(), Some(SampleError::MissingEtimes));
    assert_eq!(parse_ps_output(" \n ").err(), Some(SampleError::MissingEtimes));
    assert_eq!(parse_ps_output("1234").err(), Some(SampleError::MissingComm));
    assert_eq!(parse_ps_output("bash").err(), Some(SampleError::MissingComm));
    assert_eq!(parse_ps_output("bash 1234 x").err(), Some(SampleError::BadEtimes));
    assert_eq!(parse_ps_output("-1 bash x").err(), Some(SampleError::BadEtimes));
    assert_eq!(parse_ps_output("18446744073709551616 bash").err(), Some(SampleError::BadEtimes));
}
