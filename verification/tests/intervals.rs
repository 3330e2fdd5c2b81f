use parental_watchdog::interval::{merge_intervals, total_seconds};

fn sum_of_lengths(intervals: &[(u64, u64)]) -> u64 {
    intervals.iter().map(|&(s, e)| e - s).sum()
}

#[test]
fn overlapping_sessions_merge_into_one() {
    let merged = merge_intervals(vec![(0, 50), (40, 90)]);
    assert_eq!(merged, vec![(0, 90)]);
    assert_eq!(total_seconds(&merged), 90);
}

#[test]
fn touching_intervals_merge() {
    let merged = merge_intervals(vec![(0, 5), (5, 10)]);
    assert_eq!(merged, vec![(0, 10)]);
    assert_eq!(total_seconds(&merged), 10);
}

#[test]
fn a_gap_of_one_second_keeps_intervals_apart() {
    let merged = merge_intervals(vec![(0, 5), (6, 10)]);
    assert_eq!(merged, vec![(0, 5), (6, 10)]);
    assert_eq!(total_seconds(&merged), 9);
}

#[test]
fn identical_intervals_count_once() {
    let merged = merge_intervals(vec![(3, 8), (3, 8)]);
    assert_eq!(merged, vec![(3, 8)]);
    assert_eq!(total_seconds(&merged), 5);
}

#[test]
fn no_intervals_give_nothing() {
    let merged = merge_intervals(Vec::new());
    assert_eq!(merged, Vec::<(u64, u64)>::new());
    assert_eq!(total_seconds(&merged), 0);
}

#[test]
fn a_single_interval_stays_as_it_is() {
    let merged = merge_intervals(vec![(100, 185)]);
    assert_eq!(merged, vec![(100, 185)]);
    assert_eq!(total_seconds(&merged), 85);
}

#[test]
fn unsorted_input_is_sorted_by_start() {
    let merged = merge_intervals(vec![(20, 30), (0, 5), (4, 10)]);
    assert_eq!(merged, vec![(0, 10), (20, 30)]);
    assert_eq!(total_seconds(&merged), 20);
}

#[test]
fn an_interval_inside_another_adds_nothing() {
    let merged = merge_intervals(vec![(0, 100), (10, 20)]);
    assert_eq!(merged, vec![(0, 100)]);
}

#[test]
fn an_interval_inside_another_does_not_shorten_it() {
    let merged = merge_intervals(vec![(10, 20), (0, 100), (50, 60), (100, 101)]);
    assert_eq!(merged, vec![(0, 101)]);
}

#[test]
fn an_empty_interval_alone_stays() {
    let merged = merge_intervals(vec![(3, 3)]);
    assert_eq!(merged, vec![(3, 3)]);
    assert_eq!(total_seconds(&merged), 0);
}

#[test]
fn the_order_of_the_input_does_not_matter() {
    let a = merge_intervals(vec![(0, 50), (40, 90), (200, 210), (90, 95)]);
    let b = merge_intervals(vec![(90, 95), (200, 210), (40, 90), (0, 50)]);
    let c = merge_intervals(vec![(200, 210), (0, 50), (90, 95), (40, 90)]);
    assert_eq!(a, vec![(0, 95), (200, 210)]);
    assert_eq!(a, b);
    assert_eq!(a, c);
}

#[test]
fn merging_twice_changes_nothing() {
    let once = merge_intervals(vec![(7, 9), (0, 3), (2, 5), (9, 12), (30, 31)]);
    let twice = merge_intervals(once.clone());
    assert_eq!(once, vec![(0, 5), (7, 12), (30, 31)]);
    assert_eq!(once, twice);
}

#[test]
fn the_total_is_at_most_the_sum_of_the_lengths() {
    let overlapping = vec![(0, 50), (40, 90), (45, 60)];
    let total = total_seconds(&merge_intervals(overlapping.clone()));
    assert_eq!(total, 90);
    assert!(total < sum_of_lengths(&overlapping));

    let disjoint = vec![(0, 10), (20, 30), (40, 45)];
    let total = total_seconds(&merge_intervals(disjoint.clone()));
    assert_eq!(total, 25);
    assert_eq!(total, sum_of_lengths(&disjoint));
}

#[test]
fn touching_intervals_cover_the_sum_of_their_lengths() {
    let touching = vec![(0, 5), (5, 10)];
    let total = total_seconds(&merge_intervals(touching.clone()));
    assert_eq!(total, sum_of_lengths(&touching));
}

#[test]
fn intervals_up_to_the_largest_second() {
    let merged = merge_intervals(vec![(u64::MAX - 10, u64::MAX), (0, u64::MAX - 10)]);
    assert_eq!(merged, vec![(0, u64::MAX)]);
    assert_eq!(total_seconds(&merged), u64::MAX);
}
