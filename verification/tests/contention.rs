use bystander::contention::CONTENTION_THRESHOLD;
use bystander::ContentionMeasure;

#[test]
fn contention_is_an_error_up_to_the_threshold() {
    let mut measure = ContentionMeasure::new();
    assert_eq!(CONTENTION_THRESHOLD, 2);
    assert!(!measure.use_slow_path());
    assert!(measure.detected().is_err());
    assert!(!measure.use_slow_path());
    assert!(measure.detected().is_err());
    assert!(!measure.use_slow_path());
    assert!(measure.detected().is_ok());
    assert!(measure.use_slow_path());
    assert!(measure.detected().is_ok());
    assert!(measure.use_slow_path());
}
