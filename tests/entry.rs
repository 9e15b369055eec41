use bader_db::expiry::{now, NANOS_PER_SEC};
use bader_db::{Entry, Expiry};

#[test]
fn test_new_entry() {
    let value = String::from("test");
    let instant = now() + 5 * NANOS_PER_SEC;
    let expiry = Expiry::new(instant);
    let entry = Entry::new(value.clone(), expiry.clone());
    assert_eq!(*entry.value(), value);
    assert_eq!(entry.expiration(), &expiry);
}

#[test]
fn test_getters_and_setters() {
    let value = String::from("test");
    let instant = now() + 5 * NANOS_PER_SEC;
    let mut expiry = Expiry::new(instant);
    let mut entry = Entry::new(value.clone(), expiry.clone());

    assert_eq!(entry.expiration(), &expiry);

    assert_eq!(entry.value(), &value);

    let new_value = String::from("new_value");
    *entry.value_mut() = new_value.clone();
    assert_eq!(entry.value(), &new_value);

    let new_instant = now() + 10 * NANOS_PER_SEC;
    expiry = Expiry::new(new_instant);
    entry.expiration = expiry.clone();
    assert_eq!(entry.expiration(), &expiry);
}

#[test]
fn test_entry_is_expired() {
    let value = String::from("test");

    let expired_instant = now() - 5 * NANOS_PER_SEC;
    let expired_expiry = Expiry::new(expired_instant);
    let expired_entry = Entry::new(value.clone(), expired_expiry);

    let non_expired_instant = now() + 5 * NANOS_PER_SEC;
    let non_expired_expiry = Expiry::new(non_expired_instant);
    let non_expired_entry = Entry::new(value.clone(), non_expired_expiry);

    assert!(expired_entry.expiration().is_expired());
    assert!(!non_expired_entry.expiration().is_expired());
}

#[test]
fn test_entry_remaining() {
    let value = String::from("test");

    let future_instant = now() + 5 * NANOS_PER_SEC;
    let future_expiry = Expiry::new(future_instant);
    let future_entry = Entry::new(value.clone(), future_expiry);
    assert!(future_entry.expiration().remaining().is_some());

    let expired_instant = now() - 5 * NANOS_PER_SEC;
    let expired_expiry = Expiry::new(expired_instant);
    let expired_entry = Entry::new(value.clone(), expired_expiry);
    assert_eq!(expired_entry.expiration().remaining(), Some(0));
}
