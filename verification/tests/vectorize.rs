use rinha_fraud::vectorize::{merchant_is_known, time_features};

#[test]
fn day_of_week_is_monday_zero() {
    // 2026-03-09 is a Monday, 2026-03-15 a Sunday
    let f = time_features("2026-03-09T12:00:00Z", None).unwrap();
    assert_eq!(f.weekday, 0);
    assert_eq!(f.hour, 12);
    let f = time_features("2026-03-15T12:00:00Z", None).unwrap();
    assert_eq!(f.weekday, 6);
}

#[test]
fn reads_hour_in_utc() {
    let f = time_features("2026-03-11T18:45:53Z", None).unwrap();
    assert_eq!(f.hour, 18);
    assert_eq!(f.weekday, 2);
    let f = time_features("2026-03-11T18:45:53-03:00", None).unwrap();
    assert_eq!(f.hour, 21);
}

#[test]
fn last_transaction_present_gives_both_instants() {
    let f = time_features("2026-03-09T13:00:00Z", Some("2026-03-09T12:00:00Z")).unwrap();
    assert_eq!(f.requested_millis - f.previous_millis.unwrap(), 3_600_000);
    assert_eq!(f.requested_millis, 1_773_061_200_000);
    let f = time_features("2026-03-09T13:00:00Z", None).unwrap();
    assert_eq!(f.previous_millis, None);
}

#[test]
fn unparsable_timestamps_give_none() {
    assert!(time_features("yesterday", None).is_none());
    assert!(time_features("2026-03-09T13:00:00Z", Some("not a date")).is_none());
    assert!(time_features("not a date", Some("2026-03-09T13:00:00Z")).is_none());
}

#[test]
fn known_merchant_lookup() {
    let known = vec!["MERC-003".to_string(), "MERC-016".to_string()];
    assert!(merchant_is_known(&known, &"MERC-016".to_string()));
    assert!(!merchant_is_known(&known, &"MERC-002".to_string()));
    assert!(!merchant_is_known(&vec![], &"MERC-001".to_string()));
}
