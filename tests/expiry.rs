use bader_db::expiry::{now, NANOS_PER_MILLI, NANOS_PER_SEC};
use bader_db::{Expiry, ExpiryFormat};

#[test]
fn test_new() {
    let instant = now();
    let expiry = Expiry::new(instant);
    assert_eq!(expiry.instant(), &Some(instant));
}

#[test]
fn test_none() {
    let expiry = Expiry::none();
    assert_eq!(expiry.instant(), &None);
}

#[test]
fn test_is_expired() {
    let instant = now() + NANOS_PER_SEC;
    let expiry = Expiry::new(instant);
    assert!(!expiry.is_expired());

    let past_instant = now() - NANOS_PER_SEC;
    let expired_expiry = Expiry::new(past_instant);
    assert!(expired_expiry.is_expired());

    let none_expiry = Expiry::none();
    assert!(!none_expiry.is_expired());
}

#[test]
fn test_remaining() {
    let instant = now() + NANOS_PER_SEC;
    let expiry = Expiry::new(instant);
    assert!(expiry.remaining().is_some());

    let past_instant = now() - 3 * NANOS_PER_SEC;
    let expired_expiry = Expiry::new(past_instant);
    assert_eq!(expired_expiry.remaining(), Some(0));

    let none_expiry = Expiry::none();
    assert!(none_expiry.remaining().is_none());
}

#[test]
fn test_conversions() {
    let instant = now();
    let expiry_from_instant = Expiry::new(instant);
    assert_eq!(expiry_from_instant.instant(), &Some(instant));

    let millis = 1000;
    let expiry_from_millis = Expiry::in_millis(millis);
    assert!(expiry_from_millis.instant().is_some());

    let expiry_from_duration = Expiry::in_nanos(NANOS_PER_SEC);
    assert!(expiry_from_duration.instant().is_some());
}

#[test]
fn past_deadline_is_expired_with_nothing_left() {
    let e = Expiry::new(1_000);
    assert!(e.is_expired_at(2_000));
    assert_eq!(e.remaining_at(2_000), Some(0));
}

#[test]
fn future_deadline_is_live_with_time_left() {
    let e = Expiry::new(5_000);
    assert!(!e.is_expired_at(2_000));
    assert_eq!(e.remaining_at(2_000), Some(3_000));
}

#[test]
fn deadline_equal_to_now_is_not_expired() {
    let e = Expiry::new(2_000);
    assert!(!e.is_expired_at(2_000));
    assert_eq!(e.remaining_at(2_000), Some(0));
}

#[test]
fn never_expiring_has_no_remaining_time() {
    let e = Expiry::none();
    assert!(!e.is_expired_at(u64::MAX));
    assert_eq!(e.remaining_at(7), None);
}

#[test]
fn px_equals_relative_millis() {
    let t = 1_000_000_000_000u64;
    assert_eq!(Expiry::from_format_at(t, 10, "PX"), Expiry::from_millis_at(t, 10));
    assert_eq!(Expiry::from_format_at(t, 10, "PX"), Expiry::new(t + 10 * NANOS_PER_MILLI));
}

#[test]
fn ex_equals_relative_seconds() {
    let t = 1_000_000_000_000u64;
    assert_eq!(Expiry::from_format_at(t, 1, "EX"), Expiry::after_at(t, NANOS_PER_SEC));
    assert_eq!(Expiry::from_format_at(t, 1, "ex"), Expiry::new(t + NANOS_PER_SEC));
}

#[test]
fn unknown_format_never_expires() {
    let t = 1_000_000_000_000u64;
    assert_eq!(Expiry::from_format_at(t, 10, "XX"), Expiry::none());
    assert_eq!(Expiry::from_format_at(t, 10, "EXX"), Expiry::none());
}

#[test]
fn far_deadline_saturates() {
    let e = Expiry::from_format_at(u64::MAX - 5, u64::MAX, "EX");
    assert_eq!(e, Expiry::new(u64::MAX));
}

#[test]
fn format_tags_ignore_case() {
    assert_eq!(ExpiryFormat::parse("Ex"), ExpiryFormat::EX);
    assert_eq!(ExpiryFormat::parse("pX"), ExpiryFormat::PX);
    assert_eq!(ExpiryFormat::from("px"), ExpiryFormat::PX);
    assert_eq!(ExpiryFormat::parse("ms"), ExpiryFormat::Uninitialized);
    assert_eq!(ExpiryFormat::parse(""), ExpiryFormat::Uninitialized);
}

#[test]
fn clock_reads_after_the_epoch() {
    let a = now();
    assert!(a > 1_600_000_000 * NANOS_PER_SEC);
    let e = Expiry::in_format(60, "EX");
    let d = e.instant().unwrap();
    assert!(d >= a + 60 * NANOS_PER_SEC);
}

#[test]
fn ex_equals_relative_seconds_constructor() {
    let t = 1_000_000_000_000u64;
    assert_eq!(Expiry::from_format_at(t, 1, "EX"), Expiry::from_secs_at(t, 1));
    assert_eq!(Expiry::from_format_at(t, 1, "eX"), Expiry::from_secs_at(t, 1));
    assert_eq!(Expiry::from_format_at(t, 10, "Px"), Expiry::from_millis_at(t, 10));
}
