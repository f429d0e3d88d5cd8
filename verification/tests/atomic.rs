use bystander::{Atomic, ContentionMeasure};

#[test]
fn new_atomic_is_in_version_zero() {
    let atomic = Atomic::new(7u64);
    assert_eq!(atomic.get2(), (&7, 0));
    assert_eq!(*atomic.value(), 7);
    assert_eq!(atomic.get(), 0);
    assert_eq!(atomic.with(|value, version| value * 10 + version), 70);
}

#[test]
fn compare_and_set_replaces_the_expected_value() {
    let mut atomic = Atomic::new(7u64);
    let mut contention = ContentionMeasure::new();
    assert!(matches!(atomic.compare_and_set(&7, 8, &mut contention, None), Ok(true)));
    assert_eq!(atomic.get2(), (&8, 1));
    assert!(matches!(atomic.compare_and_set(&8, 9, &mut contention, Some(1)), Ok(true)));
    assert_eq!(atomic.get2(), (&9, 2));
    assert!(!contention.use_slow_path());
}

#[test]
fn compare_and_set_refuses_another_value() {
    let mut atomic = Atomic::new(7u64);
    let mut contention = ContentionMeasure::new();
    assert!(matches!(atomic.compare_and_set(&6, 8, &mut contention, None), Ok(false)));
    assert!(matches!(atomic.compare_and_set(&6, 8, &mut contention, Some(5)), Ok(false)));
    assert_eq!(atomic.get2(), (&7, 0));
    // No contention was counted: the third one is the first that is no error.
    assert!(contention.detected().is_err());
    assert!(contention.detected().is_err());
    assert!(contention.detected().is_ok());
}

#[test]
fn compare_and_set_to_the_same_value_keeps_the_version() {
    let mut atomic = Atomic::new(7u64);
    let mut contention = ContentionMeasure::new();
    assert!(matches!(atomic.compare_and_set(&7, 7, &mut contention, None), Ok(true)));
    assert!(matches!(atomic.compare_and_set(&7, 7, &mut contention, Some(0)), Ok(true)));
    assert_eq!(atomic.get2(), (&7, 0));
}

#[test]
fn a_passed_version_is_contention() {
    let mut atomic = Atomic::new(7u64);
    let mut contention = ContentionMeasure::new();
    assert!(atomic.compare_and_set(&7, 8, &mut contention, Some(4)).is_err());
    assert!(atomic.compare_and_set(&7, 8, &mut contention, Some(4)).is_err());
    assert!(matches!(atomic.compare_and_set(&7, 8, &mut contention, Some(4)), Ok(false)));
    assert_eq!(atomic.get2(), (&7, 0));
}

#[test]
fn a_lost_race_is_contention() {
    let mut atomic = Atomic::new(7u64);
    let mut mine = ContentionMeasure::new();
    let mut theirs = ContentionMeasure::new();
    let seen = atomic.get();
    // Another handle replaces the value and puts the old one back.
    assert!(matches!(atomic.compare_and_set(&7, 8, &mut theirs, None), Ok(true)));
    assert!(matches!(atomic.compare_and_set(&8, 7, &mut theirs, None), Ok(true)));
    assert!(atomic.compare_and_set_from(seen, &7, 9, &mut mine, None).is_err());
    assert!(atomic.compare_and_set_from(seen, &7, 9, &mut mine, None).is_err());
    assert!(matches!(atomic.compare_and_set_from(seen, &7, 9, &mut mine, None), Ok(false)));
    // What does not need to change the value cannot lose the race.
    assert!(matches!(atomic.compare_and_set_from(seen, &7, 7, &mut mine, None), Ok(true)));
    assert!(matches!(atomic.compare_and_set_from(seen, &1, 9, &mut mine, None), Ok(false)));
    assert_eq!(atomic.get2(), (&7, 2));
    let now = atomic.get();
    assert!(matches!(atomic.compare_and_set_from(now, &7, 9, &mut mine, Some(2)), Ok(true)));
    assert_eq!(atomic.get2(), (&9, 3));
}

#[test]
fn try_install_needs_the_current_record() {
    let mut atomic = Atomic::new(String::from("a"));
    assert!(atomic.try_install(0, String::from("b")));
    assert!(!atomic.try_install(0, String::from("c")));
    assert_eq!(atomic.value(), "b");
    assert_eq!(atomic.get(), 1);
}

#[test]
fn set_skips_an_equal_value() {
    let mut atomic = Atomic::new(3u8);
    atomic._set(3);
    assert_eq!(atomic.get2(), (&3, 0));
    atomic._set(4);
    assert_eq!(atomic.get2(), (&4, 1));
    atomic._set(4);
    assert_eq!(atomic.get2(), (&4, 1));
}
