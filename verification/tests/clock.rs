use quantik_core::clock::{
    deadline_from, left_of, limit_passed, nearest_millis, spent_since, start_clock, time_is_up,
    whole_millis,
};

#[test]
fn limits_pass_when_they_are_spent() {
    assert!(!limit_passed(4, 5));
    assert!(limit_passed(5, 5));
    assert!(limit_passed(6, 5));
    assert_eq!(left_of(5, 2), Some(3));
    assert_eq!(left_of(5, 5), None);
    assert_eq!(left_of(5, 9), None);
}

#[test]
fn milliseconds_are_cut_or_rounded() {
    assert_eq!(whole_millis(1_999_999), 1);
    assert_eq!(whole_millis(2_000_000), 2);
    assert_eq!(nearest_millis(1_499_999), 1);
    assert_eq!(nearest_millis(1_500_000), 2);
    assert_eq!(nearest_millis(u64::MAX), 18_446_744_073_710);
}

#[test]
fn deadlines_pass_with_the_clock() {
    let start = start_clock();
    assert!(!time_is_up(&deadline_from(start, None)));
    assert!(!time_is_up(&deadline_from(start, Some(3_600_000_000_000))));
    assert!(time_is_up(&deadline_from(start, Some(0))));
    let soon = deadline_from(start, Some(2_000_000));
    while spent_since(&start) < 2_000_000 {}
    assert!(time_is_up(&soon));
}
