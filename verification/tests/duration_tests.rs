use keygen::coordinator::{iteration_limit_reached, set_handler, time_limit_reached};
use keygen::duration::parse_duration;

#[test]
fn durations_with_units() {
    assert_eq!(parse_duration("5m"), Some(300));
    assert_eq!(parse_duration("2h"), Some(7200));
    assert_eq!(parse_duration("30s"), Some(30));
    assert_eq!(parse_duration("45"), Some(45));
    assert_eq!(parse_duration("  1h \n"), Some(3600));
    assert_eq!(parse_duration("+7m"), Some(420));
}

#[test]
fn durations_rejected() {
    assert_eq!(parse_duration(""), None);
    assert_eq!(parse_duration("   "), None);
    assert_eq!(parse_duration("h"), None);
    assert_eq!(parse_duration("5d"), None);
    assert_eq!(parse_duration("-5s"), None);
    assert_eq!(parse_duration("1.5h"), None);
    assert_eq!(parse_duration("18446744073709551616"), None);
    assert_eq!(parse_duration("18446744073709551615"), Some(u64::MAX));
    assert_eq!(parse_duration("18446744073709551615h"), None);
}

#[test]
fn handler_registration_succeeds() {
    assert_eq!(set_handler(|| {}), Ok(()));
}

#[test]
fn stop_rules_of_a_run() {
    assert!(!iteration_limit_reached(999, Some(1000)));
    assert!(iteration_limit_reached(1000, Some(1000)));
    assert!(!iteration_limit_reached(u64::MAX, None));
    assert!(time_limit_reached(300, Some(300)));
    assert!(!time_limit_reached(299, Some(300)));
    assert!(!time_limit_reached(5, None));
}

#[test]
fn durations_trim_unicode_white_space() {
    assert_eq!(parse_duration(" 1s "), Some(1));
    assert_eq!(parse_duration("\u{3000}\t2m\u{a0}"), Some(120));
}
