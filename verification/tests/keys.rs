use parental_watchdog::key::{parse_key, session_key, start_of_session};

#[test]
fn a_key_is_made_of_five_fields() {
    assert_eq!(session_key("bash", 42, 1000, "2024-05-01"), "app:bash:42:1000:2024-05-01");
    assert_eq!(session_key("", 0, 0, ""), "app::0:0:");
    assert_eq!(
        session_key("x", u32::MAX, u64::MAX, "d"),
        "app:x:4294967295:18446744073709551615:d"
    );
}

#[test]
fn the_start_is_now_less_the_run_time() {
    assert_eq!(start_of_session(1000, 100), 900);
    assert_eq!(start_of_session(1000, 0), 1000);
    assert_eq!(start_of_session(1000, 1000), 0);
    assert_eq!(start_of_session(i64::MAX, 1), i64::MAX as u64 - 1);
}

#[test]
fn the_start_is_never_before_zero() {
    assert_eq!(start_of_session(100, 1000), 0);
    assert_eq!(start_of_session(100, u64::MAX), 0);
    assert_eq!(start_of_session(0, 0), 0);
    assert_eq!(start_of_session(-5, 0), 0);
    assert_eq!(start_of_session(i64::MIN, 7), 0);
}

#[test]
fn a_key_reads_back() {
    let key = session_key("bash", 42, 1000, "2024-05-01");
    assert_eq!(parse_key(&key), Some(("bash".to_string(), 1000, "2024-05-01".to_string())));
}

#[test]
fn what_a_key_says() {
    assert_eq!(
        parse_key("app:firefox:not-a-pid:17:2024-05-01"),
        Some(("firefox".to_string(), 17, "2024-05-01".to_string()))
    );
    assert_eq!(parse_key("app::::"), None);
    assert_eq!(parse_key("app:::0:"), Some((String::new(), 0, String::new())));
    assert_eq!(parse_key("app:a:1:+2:d:more:fields"), Some(("a".to_string(), 2, "d".to_string())));
}

#[test]
fn what_is_no_key() {
    assert_eq!(parse_key(""), None);
    assert_eq!(parse_key("app"), None);
    assert_eq!(parse_key("app:bash:42:1000"), None);
    assert_eq!(parse_key("seconds:bash:42:1000:2024-05-01"), None);
    assert_eq!(parse_key("APP:bash:42:1000:2024-05-01"), None);
    assert_eq!(parse_key("app:bash:42:-1:2024-05-01"), None);
    assert_eq!(parse_key("app:bash:42:1e3:2024-05-01"), None);
    assert_eq!(parse_key("app:bash:42::2024-05-01"), None);
    assert_eq!(parse_key("app:bash:42:18446744073709551616:2024-05-01"), None);
}

#[test]
fn a_colon_in_the_command_shifts_the_fields() {
    let key = session_key("a:b:c", 42, 1000, "2024-05-01");
    assert_eq!(parse_key(&key), None);
    let key = session_key("7:8", 42, 1000, "2024-05-01");
    assert_eq!(parse_key(&key), Some(("7".to_string(), 42, "1000".to_string())));
}
