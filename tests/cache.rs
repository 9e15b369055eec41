use bader_db::expiry::{now, NANOS_PER_MILLI, NANOS_PER_SEC};
use bader_db::{Cache, CacheError, Expiry};

const T0: u64 = 1_700_000_000 * NANOS_PER_SEC;

fn secs(n: u64) -> u64 {
    n * NANOS_PER_SEC
}

fn millis(n: u64) -> u64 {
    n * NANOS_PER_MILLI
}

#[test]
fn test_set_get() {
    let mut cache = Cache::default();
    let key = "key".to_string();
    let value = "value".to_string();

    cache.set(key.clone(), value.clone());
    let result = cache.get(key.clone());
    assert_eq!(result, Some(value.clone()));
}

#[test]
fn test_expired_is_zero() {
    let mut cache = Cache::default();
    let expiry = Expiry::new(now() + secs(2));
    cache.set_with_expiry("key".to_string(), "value".to_string(), expiry.clone());
    let count = cache.expired();
    assert_eq!(count, 0);
}

#[test]
fn test_expired_is_one() {
    let mut cache = Cache::default();
    let expiry = Expiry::new(now());
    cache.set_with_expiry("key".to_string(), "value".to_string(), expiry.clone());
    let count = cache.expired();
    assert_eq!(count, 1);
}

#[test]
fn test_len() {
    let mut cache = Cache::default();
    let expiry = Expiry::new(now());
    cache.set_with_expiry("key".to_string(), "value".to_string(), expiry.clone());
    assert_eq!(cache.len(), 1);
}

#[test]
fn test_clear() {
    let mut cache = Cache::default();
    let expiry = Expiry::new(now());
    cache.set_with_expiry("key".to_string(), "value".to_string(), expiry.clone());
    cache.clear();
    assert_eq!(cache.len(), 0);
}

#[test]
fn test_is_empty() {
    let mut cache = Cache::default();
    let expiry = Expiry::new(now());
    cache.set_with_expiry("key".to_string(), "value".to_string(), expiry.clone());
    cache.clear();
    assert!(cache.is_empty());
}

#[test]
fn test_set_with_expiry_get() {
    let mut cache = Cache::default();
    let key = "key".to_string();
    let value = "value".to_string();

    let expiry = Expiry::new(T0 + secs(2));
    cache.set_with_expiry(key.clone(), value.clone(), expiry.clone());
    let result = cache.get_at(key.clone(), T0);
    assert_eq!(result, Some(value.clone()));

    let result_after_expiry = cache.get_at(key.clone(), T0 + secs(3));
    assert_eq!(result_after_expiry, None);
}

#[test]
fn test_set_with_expiry_get_non_expired() {
    let mut cache = Cache::default();
    let key = "key".to_string();
    let value = "value".to_string();

    let expiry = Expiry::new(now() + secs(5));
    cache.set_with_expiry(key.clone(), value.clone(), expiry.clone());
    let result = cache.get(key.clone());
    assert_eq!(result, Some(value.clone()));
}

#[test]
fn test_set_with_expiry_update_expiry() {
    let mut cache = Cache::default();
    let key = "key".to_string();
    let value = "value".to_string();

    let expiry1 = Expiry::new(T0 + secs(2));
    cache.set_with_expiry(key.clone(), value.clone(), expiry1.clone());
    let result1 = cache.get_at(key.clone(), T0);
    assert_eq!(result1, Some(value.clone()));

    let expiry2 = Expiry::new(T0 + secs(5));
    cache.set_with_expiry(key.clone(), value.clone(), expiry2.clone());
    let result2 = cache.get_at(key.clone(), T0);
    assert_eq!(result2, Some(value.clone()));

    let result3 = cache.get_at(key.clone(), T0 + secs(3));
    assert_eq!(result3, Some(value.clone()));
}

#[test]
fn test_get_non_existing_key() {
    let mut cache = Cache::default();
    let result = cache.get("non_existing_key".to_string());
    assert_eq!(result, None);
}

#[test]
fn test_remove() {
    let mut cache = Cache::default();
    let key = "key".to_string();
    let value = "value".to_string();
    cache.set(key.clone(), value.clone());
    let result = cache.get(key.clone()).unwrap();
    assert_eq!(result, value.to_string());
    let _ = cache.remove(key.clone());
    let result = cache.get(key.clone());
    assert!(result.is_none());
}

#[test]
fn test_remove_key_doesnt_exist() {
    let mut cache = Cache::default();
    let key = "key".to_string();
    let result = cache.remove(key.clone());
    assert!(result.is_err())
}

#[test]
fn test_existing_is_one() {
    let mut cache = Cache::default();
    let expiry = Expiry::new(now() + secs(2));
    cache.set_with_expiry("key".to_string(), "value".to_string(), expiry.clone());
    let count = cache.existing();
    assert_eq!(count, 1);
}

#[test]
fn test_purge_empty_cache() {
    let mut cache = Cache::new(10, 50, 1000);
    cache.purge();
    assert_eq!(cache.len(), 0);
}

#[test]
fn test_purge_expired_keys() {
    let mut cache = Cache::new(10, 50, 1);
    cache.set_with_expiry("key1".to_string(), "value1".to_string(), Expiry::after_at(T0, secs(1)));
    cache.set_with_expiry("key2".to_string(), "value2".to_string(), Expiry::after_at(T0, secs(2)));
    cache.set_with_expiry("key3".to_string(), "value3".to_string(), Expiry::after_at(T0, secs(3)));
    let later = T0 + secs(2) + millis(1);
    cache.purge_at(later);
    assert_eq!(cache.len(), 1);
    assert_eq!(cache.get_at("key1".to_string(), later), None);
    assert_eq!(cache.get_at("key2".to_string(), later), None);
    assert_eq!(cache.get_at("key3".to_string(), later), Some("value3".to_string()));
}

#[test]
fn test_expiry_formats() {
    let mut cache = Cache::new(10, 50, 1);
    cache.set_with_expiry("key1".to_string(), "value1".to_string(), Expiry::from_format_at(T0, 10, "PX"));
    cache.set_with_expiry("key2".to_string(), "value2".to_string(), Expiry::from_format_at(T0, 1, "EX"));
    cache.set_with_expiry("key3".to_string(), "value3".to_string(), Expiry::from_format_at(T0, 3, "EX"));
    let later = T0 + secs(2);
    cache.purge_at(later);
    assert_eq!(cache.len(), 1);
    assert_eq!(cache.get_at("key1".to_string(), later), None);
    assert_eq!(cache.get_at("key2".to_string(), later), None);
    assert_eq!(cache.get_at("key3".to_string(), later), Some("value3".to_string()));
}

#[test]
fn test_purge_all_expired_entries() {
    let mut cache = Cache::new(2, 50, 1000);
    cache.set_with_expiry("key1".to_string(), "value1".to_string(), Expiry::after_at(T0, 0));
    cache.set_with_expiry("key2".to_string(), "value2".to_string(), Expiry::after_at(T0, 0));
    cache.purge_at(T0 + millis(100));
    assert_eq!(cache.len(), 0);
}

#[test]
fn test_purge_some_expired_entries() {
    let mut cache = Cache::new(3, 50, 1000);
    let key1 = "key1".to_string();
    let key2 = "key2".to_string();
    let key3 = "key3".to_string();
    cache.set_with_expiry(key1.clone(), "value1".to_string(), Expiry::after_at(T0, 0));
    cache.set_with_expiry(key2.clone(), "value2".to_string(), Expiry::after_at(T0, 0));
    cache.set_with_expiry(key3.clone(), "value3".to_string(), Expiry::after_at(T0, secs(60)));
    let later = T0 + millis(100);
    cache.purge_at(later);
    assert_eq!(cache.len(), 1);
    assert_eq!(cache.get_at(key1.clone(), later), None);
    assert_eq!(cache.get_at(key2.clone(), later), None);
    assert_eq!(cache.get_at(key3.clone(), later), Some("value3".to_string()));
}

#[test]
fn test_monitor() {
    let mut cache = Cache::new(10, 50, 100);
    let lifetimes: [(&str, &str, u64); 30] = [
        ("key1", "value1", 3), ("key2", "value2", 2), ("key3", "value1", 1), ("key4", "value2", 1),
        ("key5", "value1", 2), ("key6", "value2", 2), ("key7", "value1", 3), ("key8", "value2", 2),
        ("key9", "value1", 3), ("key11", "value1", 3), ("key12", "value2", 2), ("key13", "value1", 1),
        ("key14", "value2", 1), ("key15", "value1", 2), ("key16", "value2", 2), ("key17", "value1", 3),
        ("key18", "value2", 2), ("key19", "value1", 4), ("key21", "value1", 3), ("key22", "value2", 2),
        ("key23", "value1", 1), ("key24", "value2", 1), ("key25", "value1", 2), ("key26", "value2", 2),
        ("key27", "value1", 4), ("key28", "value2", 2), ("key29", "value1", 3), ("key31", "value1", 3),
        ("key39", "value1", 6), ("key10", "value2", 7),
    ];
    for (k, v, s) in lifetimes.iter() {
        cache.set_with_expiry(k.to_string(), v.to_string(), Expiry::after_at(T0, secs(*s)));
    }
    let mut tick = 1u64;
    while tick <= 50 {
        cache.purge_at(T0 + tick * millis(cache.frequency()));
        tick += 1;
    }
    assert_eq!(2, cache.len());
}

#[test]
fn background_purge_reduces_to_live_keys() {
    let mut cache = Cache::new(10, 50, 100);
    for i in 0..35 {
        cache.set_with_expiry(format!("short{}", i), "v".to_string(), Expiry::from_format_at(T0, 1, "EX"));
    }
    cache.set_with_expiry("long1".to_string(), "v".to_string(), Expiry::from_format_at(T0, 7, "EX"));
    cache.set_with_expiry("long2".to_string(), "v".to_string(), Expiry::from_format_at(T0, 7, "EX"));
    assert_eq!(cache.len(), 37);
    for tick in 1..=50u64 {
        cache.purge_at(T0 + tick * millis(100));
    }
    assert_eq!(cache.len(), 2);
}

#[test]
fn purge_keeps_live_keys_and_stops_by_threshold() {
    let mut cache = Cache::new(4, 50, 100);
    for i in 0..20 {
        cache.set(format!("live{}", i), "v".to_string());
    }
    let stats = cache.purge_at(T0);
    assert_eq!(cache.len(), 20);
    assert_eq!(stats.removed, 0);
    assert_eq!(stats.last_sampled, 4);
    assert_eq!(stats.last_expired, 0);
}

#[test]
fn purge_on_empty_cache_reports_nothing() {
    let mut cache = Cache::new(10, 50, 100);
    let stats = cache.purge_at(T0);
    assert_eq!(stats.removed, 0);
    assert!(cache.is_empty());
}

#[test]
fn set_with_zero_seconds_reads_nothing() {
    let mut cache = Cache::default();
    cache.set_with_expiry("k".to_string(), "v".to_string(), Expiry::from_format_at(T0, 0, "EX"));
    assert_eq!(cache.get_at("k".to_string(), T0 + 1), None);
    assert_eq!(cache.len(), 0);
}

#[test]
fn set_with_sixty_seconds_reads_until_the_deadline() {
    let mut cache = Cache::default();
    cache.set_with_expiry("k".to_string(), "v".to_string(), Expiry::from_format_at(T0, 60, "EX"));
    assert_eq!(cache.get_at("k".to_string(), T0 + secs(60)), Some("v".to_string()));
    assert_eq!(cache.get_at("k".to_string(), T0 + secs(60) + 1), None);
}

#[test]
fn exists_ignores_expiry() {
    let mut cache = Cache::default();
    cache.set_with_expiry("k".to_string(), "v".to_string(), Expiry::new(1));
    assert!(cache.key_exists("k".to_string()));
    assert!(!cache.key_exists("never".to_string()));
}

#[test]
fn remove_reports_missing_key() {
    let mut cache = Cache::default();
    assert_eq!(cache.remove("miss".to_string()), Err(CacheError::NoSuchKey));
    cache.set("hit".to_string(), "v".to_string());
    assert_eq!(cache.remove("hit".to_string()), Ok(()));
    assert_eq!(cache.get("hit".to_string()), None);
}

#[test]
fn counts_split_expired_and_live() {
    let mut cache = Cache::default();
    cache.set_with_expiry("a".to_string(), "v".to_string(), Expiry::new(T0 - 1));
    cache.set_with_expiry("b".to_string(), "v".to_string(), Expiry::new(T0 + 1));
    cache.set("c".to_string(), "v".to_string());
    assert_eq!(cache.expired_at(T0), 1);
    assert_eq!(cache.existing_at(T0), 2);
}

#[test]
fn set_replaces_value_and_expiry() {
    let mut cache = Cache::default();
    cache.set_with_expiry("k".to_string(), "old".to_string(), Expiry::new(T0 - 1));
    cache.set("k".to_string(), "new".to_string());
    assert_eq!(cache.len(), 1);
    assert_eq!(cache.get_at("k".to_string(), T0), Some("new".to_string()));
}

#[test]
fn configuration_is_kept() {
    let cache = Cache::new(10, 50, 100);
    assert_eq!(cache.sample(), 10);
    assert_eq!(cache.threshold(), 50);
    assert_eq!(cache.frequency(), 100);
}

#[test]
fn purge_of_an_all_expired_cache_empties_it() {
    let mut cache = Cache::new(3, 50, 100);
    for i in 0..40 {
        cache.set_with_expiry(format!("k{}", i), "v".to_string(), Expiry::new(T0 - 1));
    }
    let stats = cache.purge_at(T0);
    assert_eq!(cache.len(), 0);
    assert_eq!(stats.removed, 40);
}

#[test]
fn purge_with_one_covering_sample_drops_every_expired_key() {
    let mut cache = Cache::new(10, 100, 100);
    for i in 0..4 {
        cache.set_with_expiry(format!("old{}", i), "v".to_string(), Expiry::new(T0 - 1));
    }
    for i in 0..6 {
        cache.set(format!("live{}", i), "v".to_string());
    }
    let stats = cache.purge_at(T0);
    assert_eq!(cache.len(), 6);
    assert_eq!(cache.expired_at(T0), 0);
    assert_eq!(stats.last_sampled, 10);
    assert_eq!(stats.last_expired, 4);
    assert_eq!(stats.removed, 4);
}

#[test]
fn last_pass_samples_the_smaller_of_sample_and_size() {
    let mut cache = Cache::new(4, 50, 100);
    for i in 0..3 {
        cache.set(format!("live{}", i), "v".to_string());
    }
    let stats = cache.purge_at(T0);
    assert_eq!(stats.last_sampled, 3);
    assert_eq!(stats.last_expired, 0);
}

#[test]
fn sampling_and_eviction_phases() {
    let mut cache = Cache::new(10, 50, 100);
    cache.set_with_expiry("a".to_string(), "v".to_string(), Expiry::new(T0 - 1));
    cache.set_with_expiry("b".to_string(), "v".to_string(), Expiry::new(T0 + 1));
    cache.set("c".to_string(), "v".to_string());
    let (keys, sampled) = cache.sample_expired_at(T0);
    assert_eq!(sampled, 3);
    assert_eq!(keys, vec!["a".to_string()]);
    assert_eq!(cache.len(), 3);
    let gone = cache.evict_expired_at(&vec!["a".to_string(), "b".to_string(), "zz".to_string()], T0);
    assert_eq!(gone, 1);
    assert_eq!(cache.len(), 2);
    assert!(cache.purge_continues(1, 2));
    assert!(!cache.purge_continues(1, 3));
}

#[test]
fn peek_leaves_expired_keys_to_the_writer() {
    let mut cache = Cache::default();
    cache.set_with_expiry("gone".to_string(), "v".to_string(), Expiry::new(T0 - 1));
    cache.set("here".to_string(), "v".to_string());
    assert_eq!(cache.peek_at(&"gone".to_string(), T0), None);
    assert_eq!(cache.peek_at(&"here".to_string(), T0), Some(Some("v".to_string())));
    assert_eq!(cache.peek_at(&"none".to_string(), T0), Some(None));
    assert_eq!(cache.len(), 2);
}
