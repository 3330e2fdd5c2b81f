use parental_watchdog::ledger::{
    load_apps, load_apps_bytes, save_apps, sum_seconds_for_today, Ledger,
};

fn listed(apps: &Ledger) -> Vec<(String, u64)> {
    (0..apps.len()).map(|i| apps.entry(i).unwrap()).collect()
}

#[test]
fn a_line_that_is_not_utf8_is_passed_over() {
    let apps = load_apps_bytes(b"a 1\n\xff\xfe 2\nb 3\nc \xc3\x28\nd\xed\xa0\x80 4\ne 5");
    assert_eq!(
        listed(&apps),
        vec![("a".to_string(), 1), ("b".to_string(), 3), ("e".to_string(), 5)]
    );
}

#[test]
fn bytes_that_end_in_half_a_character() {
    let apps = load_apps_bytes(b"a 1\nb 2\xe2\x82");
    assert_eq!(listed(&apps), vec![("a".to_string(), 1)]);
    assert_eq!(load_apps_bytes(b"").len(), 0);
    assert_eq!(load_apps_bytes(b"\xff").len(), 0);
}

#[test]
fn keys_of_any_characters_are_read_from_bytes() {
    let apps = load_apps_bytes("app:jeu\u{e9}:7:1:2024-05-01 9\r\n\u{1f600} 2\n".as_bytes());
    assert_eq!(
        listed(&apps),
        vec![("app:jeu\u{e9}:7:1:2024-05-01".to_string(), 9), ("\u{1f600}".to_string(), 2)]
    );
}

#[test]
fn bytes_and_text_read_alike() {
    for text in [
        "",
        "\n",
        "a 1",
        "a 1\n",
        "a 1\r\n",
        "a 1\r",
        "k 1\nother 3\nk 2\n",
        "key notanumber\nkey -5\nkey 5 6\nkey \n\nkey 18446744073709551616\n",
        "a 0\nb +7\nc 007\n 5\nd 18446744073709551615",
        "\u{e9}\u{20ac} 4\n\u{1f600}x 5\r\n\r\n\u{a0} 6",
    ] {
        assert_eq!(listed(&load_apps_bytes(text.as_bytes())), listed(&load_apps(text)));
    }
}

#[test]
fn a_new_key_is_stored_as_observed() {
    let mut apps = Ledger::new();
    assert_eq!(apps.len(), 0);
    assert_eq!(apps.get("k"), None);
    assert_eq!(apps.get_or_create("k", 10), 10);
    assert_eq!(apps.get("k"), Some(10));
    assert_eq!(apps.len(), 1);
}

#[test]
fn a_larger_reading_replaces_what_is_stored() {
    let mut apps = Ledger::new();
    apps.get_or_create("k", 10);
    assert_eq!(apps.get_or_create("k", 25), 25);
    assert_eq!(apps.get("k"), Some(25));
    assert_eq!(apps.len(), 1);
}

#[test]
fn a_smaller_reading_counts_as_no_progress() {
    let mut apps = Ledger::new();
    apps.get_or_create("k", 25);
    assert_eq!(apps.get_or_create("k", 3), 25);
    assert_eq!(apps.get_or_create("k", 0), 25);
    assert_eq!(apps.get("k"), Some(25));
}

#[test]
fn readings_never_decrease_over_a_run() {
    let mut apps = Ledger::new();
    let mut last: u64 = 0;
    for observed in [5u64, 3, 9, 9, 1, 20, 19, u64::MAX, 0] {
        apps.get_or_create("other", observed / 2);
        let now = apps.get_or_create("k", observed);
        assert!(now >= last);
        assert!(now >= observed);
        last = now;
    }
    assert_eq!(last, u64::MAX);
}

#[test]
fn keys_are_kept_apart() {
    let mut apps = Ledger::new();
    apps.get_or_create("a", 1);
    apps.get_or_create("b", 2);
    apps.get_or_create("a", 5);
    assert_eq!(apps.get("a"), Some(5));
    assert_eq!(apps.get("b"), Some(2));
    assert_eq!(apps.len(), 2);
    assert_eq!(apps.entry(0), Some(("a".to_string(), 5)));
    assert_eq!(apps.entry(1), Some(("b".to_string(), 2)));
    assert_eq!(apps.entry(2), None);
}

#[test]
fn insert_overwrites() {
    let mut apps = Ledger::new();
    apps.insert("a", 9);
    apps.insert("a", 4);
    assert_eq!(apps.get("a"), Some(4));
    assert_eq!(apps.len(), 1);
}

#[test]
fn a_malformed_line_is_passed_over() {
    let apps = load_apps("this-line-has-no-number\napp:game:7:1000:2024-05-01 42\n");
    assert_eq!(apps.len(), 1);
    assert_eq!(apps.get("app:game:7:1000:2024-05-01"), Some(42));
    assert_eq!(apps.get("this-line-has-no-number"), None);
}

#[test]
fn lines_that_say_nothing() {
    let apps = load_apps("key notanumber\nkey -5\nkey 5 6\nkey \n\nkey 18446744073709551616\n");
    assert_eq!(apps.len(), 0);
}

#[test]
fn lines_that_say_something() {
    let apps = load_apps("a 0\nb +7\nc 007\n 5\nd 18446744073709551615");
    assert_eq!(apps.len(), 5);
    assert_eq!(apps.get("a"), Some(0));
    assert_eq!(apps.get("b"), Some(7));
    assert_eq!(apps.get("c"), Some(7));
    assert_eq!(apps.get(""), Some(5));
    assert_eq!(apps.get("d"), Some(u64::MAX));
}

#[test]
fn a_later_line_overwrites_an_earlier_one() {
    let apps = load_apps("k 1\nother 3\nk 2\n");
    assert_eq!(apps.len(), 2);
    assert_eq!(apps.get("k"), Some(2));
    assert_eq!(apps.entry(0), Some(("k".to_string(), 2)));
}

#[test]
fn carriage_returns_before_line_feeds_are_dropped() {
    let apps = load_apps("a 1\r\nb 2\r\n");
    assert_eq!(apps.get("a"), Some(1));
    assert_eq!(apps.get("b"), Some(2));
    let apps = load_apps("a 1\r");
    assert_eq!(apps.len(), 0);
}

#[test]
fn an_empty_file_is_an_empty_ledger() {
    assert_eq!(load_apps("").len(), 0);
    assert_eq!(save_apps(&Ledger::new()), "");
}

#[test]
fn a_ledger_is_written_one_line_for_each_entry() {
    let mut apps = Ledger::new();
    apps.get_or_create("app:game:7:1000:2024-05-01", 85);
    apps.get_or_create("b", 0);
    assert_eq!(save_apps(&apps), "app:game:7:1000:2024-05-01 85\nb 0\n");
}

#[test]
fn what_is_written_reads_back() {
    let mut apps = Ledger::new();
    apps.get_or_create("app:a:1:10:2024-05-01", 5);
    apps.get_or_create("app:b:2:20:2024-05-02", u64::MAX);
    apps.get_or_create("app:a:1:10:2024-05-01", 7);
    let again = load_apps(&save_apps(&apps));
    assert_eq!(again.len(), 2);
    assert_eq!(again.entry(0), apps.entry(0));
    assert_eq!(again.entry(1), apps.entry(1));
    assert_eq!(save_apps(&again), save_apps(&apps));
}

#[test]
fn no_sessions_today_total_zero() {
    let mut apps = Ledger::new();
    assert_eq!(sum_seconds_for_today(&apps, "2024-05-01"), 0);
    apps.get_or_create("app:game:7:1000:2024-04-30", 50);
    apps.get_or_create("not-a-session-key", 50);
    assert_eq!(sum_seconds_for_today(&apps, "2024-05-01"), 0);
}

#[test]
fn a_single_session_totals_its_own_seconds() {
    let mut apps = Ledger::new();
    apps.get_or_create("app:game:7:1000:2024-05-01", 85);
    assert_eq!(sum_seconds_for_today(&apps, "2024-05-01"), 85);
}

#[test]
fn two_overlapping_sessions_total_ninety() {
    let mut apps = Ledger::new();
    apps.get_or_create("app:game:7:0:2024-05-01", 50);
    apps.get_or_create("app:game:7:40:2024-05-01", 50);
    assert_eq!(sum_seconds_for_today(&apps, "2024-05-01"), 90);
}

#[test]
fn identical_sessions_count_once() {
    let mut apps = Ledger::new();
    apps.get_or_create("app:game:7:100:2024-05-01", 30);
    apps.get_or_create("app:game:8:100:2024-05-01", 30);
    assert_eq!(sum_seconds_for_today(&apps, "2024-05-01"), 30);
}

#[test]
fn only_sessions_of_the_day_count() {
    let mut apps = Ledger::new();
    apps.get_or_create("app:game:7:0:2024-05-01", 10);
    apps.get_or_create("app:game:7:100:2024-05-02", 20);
    apps.get_or_create("app:editor:9:500:2024-05-01", 5);
    apps.get_or_create("app:broken:9:x:2024-05-01", 1000);
    apps.get_or_create("seconds:editor:9:500:2024-05-01", 1000);
    assert_eq!(sum_seconds_for_today(&apps, "2024-05-01"), 15);
    assert_eq!(sum_seconds_for_today(&apps, "2024-05-02"), 20);
}

#[test]
fn a_session_that_would_end_after_the_last_second_ends_there() {
    let mut apps = Ledger::new();
    apps.get_or_create("app:game:7:18446744073709551610:2024-05-01", 10);
    assert_eq!(sum_seconds_for_today(&apps, "2024-05-01"), 5);
}

#[test]
fn the_total_never_decreases() {
    let mut apps = Ledger::new();
    let mut last: u64 = 0;
    for (key, observed) in [
        ("app:a:1:0:2024-05-01", 10u64),
        ("app:a:1:5:2024-05-01", 10),
        ("app:a:1:0:2024-05-01", 3),
        ("app:b:2:100:2024-05-01", 1),
        ("app:a:1:5:2024-05-01", 200),
        ("app:c:3:0:2024-05-02", 1000),
    ] {
        apps.get_or_create(key, observed);
        let total = sum_seconds_for_today(&apps, "2024-05-01");
        assert!(total >= last);
        last = total;
    }
    assert_eq!(last, 205);
}
