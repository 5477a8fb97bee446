use cronbird::adapters::{FilePersister, InMemoryStore};
use cronbird::domain::{CallbackStore, Identity, IdentitySet, RecordMap, StoreError, CallbackRecord};

#[test]
fn test_record_callback_dynamic_mode() {
    let mut store = InMemoryStore::new(None);
    let id = Identity::new("test-job").unwrap();

    // First callback
    store.record_callback(&id).unwrap();

    let record = store.get_record(&id).unwrap().unwrap();
    assert_eq!(record.callback_count, 1);

    // Second callback
    store.record_callback(&id).unwrap();

    let record = store.get_record(&id).unwrap().unwrap();
    assert_eq!(record.callback_count, 2);
}

#[test]
fn test_record_callback_with_allow_list() {
    let mut allowed = IdentitySet::new();
    allowed.insert("allowed-job".to_string());

    let mut store = InMemoryStore::new(Some(allowed));

    let allowed_id = Identity::new("allowed-job").unwrap();
    let forbidden_id = Identity::new("forbidden-job").unwrap();

    // Allowed identity should work
    assert!(store.record_callback(&allowed_id).is_ok());

    // Forbidden identity should fail
    let result = store.record_callback(&forbidden_id);
    assert!(matches!(result, Err(StoreError::IdentityNotAllowed(_))));
}

#[test]
fn test_get_all_records() {
    let mut store = InMemoryStore::new(None);

    let id1 = Identity::new("job1").unwrap();
    let id2 = Identity::new("job2").unwrap();

    store.record_callback(&id1).unwrap();
    store.record_callback(&id2).unwrap();

    let records = store.get_all_records().unwrap();
    assert_eq!(records.len(), 2);
}

#[test]
fn test_snapshot_and_load() {
    let mut store = InMemoryStore::new(None);
    let id = Identity::new("test-job").unwrap();

    store.record_callback(&id).unwrap();

    // Create snapshot
    let snapshot = store.snapshot().unwrap();
    assert_eq!(snapshot.len(), 1);

    // Create new store and load snapshot
    let mut new_store = InMemoryStore::new(None);
    new_store.load_snapshot(snapshot).unwrap();

    let record = new_store.get_record(&id).unwrap().unwrap();
    assert_eq!(record.callback_count, 1);
}

#[test]
fn record_at_given_times() {
    let mut store = InMemoryStore::new(None);
    let id = Identity::new("job").unwrap();
    let other = Identity::new("other").unwrap();
    store.record_callback_at(&id, 100).unwrap();
    store.record_callback_at(&other, 50).unwrap();
    store.record_callback_at(&id, 200).unwrap();
    let record = store.get_record(&id).unwrap().unwrap();
    assert_eq!(record.last_callback_ts, 200);
    assert_eq!(record.callback_count, 2);
    let record = store.get_record(&other).unwrap().unwrap();
    assert_eq!(record.last_callback_ts, 50);
    assert_eq!(record.callback_count, 1);
    assert!(store.get_record(&Identity::new("none").unwrap()).unwrap().is_none());
}

#[test]
fn refused_identity_changes_nothing() {
    let mut allowed = IdentitySet::new();
    assert!(allowed.insert("a".to_string()));
    assert!(!allowed.insert("a".to_string()));
    let mut store = InMemoryStore::new(Some(allowed));
    let b = Identity::new("b").unwrap();
    match store.record_callback_at(&b, 10) {
        Err(StoreError::IdentityNotAllowed(name)) => assert_eq!(name, "b"),
        other => panic!("unexpected {:?}", other),
    }
    assert!(store.get_all_records().unwrap().is_empty());
    assert!(store.snapshot().unwrap().is_empty());
}

#[test]
fn corrupted_keys_are_skipped_in_listing() {
    let mut data = RecordMap::new();
    data.insert("good".to_string(), CallbackRecord::new(1));
    data.insert("bad key".to_string(), CallbackRecord::new(2));
    data.insert("".to_string(), CallbackRecord::new(3));
    let mut store = InMemoryStore::new(None);
    store.load_snapshot(data).unwrap();
    let records = store.get_all_records().unwrap();
    assert_eq!(records.len(), 1);
    assert_eq!(records[0].0.as_str(), "good");
    assert_eq!(records[0].1.last_callback_ts, 1);
    assert_eq!(store.snapshot().unwrap().len(), 3);
}

#[test]
fn record_map_basics() {
    let mut m = RecordMap::new();
    assert!(m.is_empty());
    assert_eq!(m.insert("job1".to_string(), CallbackRecord::new(1)), None);
    assert_eq!(
        m.insert("job1".to_string(), CallbackRecord::new(2)),
        Some(CallbackRecord::new(1))
    );
    assert_eq!(m.len(), 1);
    assert!(m.contains_key("job1"));
    assert!(!m.contains_key("job2"));
    assert_eq!(m.get("job1"), Some(CallbackRecord::new(2)));
    let entries = m.to_entries();
    assert_eq!(entries.len(), 1);
    let copy = m.clone();
    assert_eq!(copy.get("job1"), Some(CallbackRecord::new(2)));
}

#[test]
fn record_map_from_entries_keeps_last() {
    let m = RecordMap::from_entries(vec![
        ("a".to_string(), CallbackRecord::new(1)),
        ("b".to_string(), CallbackRecord::new(2)),
        ("a".to_string(), CallbackRecord::new(3)),
    ]);
    assert_eq!(m.len(), 2);
    assert_eq!(m.get("a"), Some(CallbackRecord::new(3)));
    assert_eq!(m.get("b"), Some(CallbackRecord::new(2)));
}

#[test]
fn store_error_messages() {
    assert_eq!(
        StoreError::IdentityNotAllowed("x".to_string()).to_string(),
        "Identity not allowed: x"
    );
    assert_eq!(StoreError::StoreFull.to_string(), "Store capacity exceeded");
    assert_eq!(
        StoreError::Internal("boom".to_string()).to_string(),
        "Internal store error: boom"
    );
}

#[test]
fn file_persister_settings() {
    let persister = FilePersister::new("/tmp/state.json", 30);
    assert_eq!(persister.interval_seconds(), 30);
    assert_eq!(persister.path(), &std::path::PathBuf::from("/tmp/state.json"));
}

#[test]
fn record_callback_uses_the_clock() {
    let mut store = InMemoryStore::new(None);
    let id = Identity::new("clocked").unwrap();
    store.record_callback(&id).unwrap();
    let record = store.get_record(&id).unwrap().unwrap();
    // 2020-09-13 or later: the wrapper reads the real clock.
    assert!(record.last_callback_ts > 1_600_000_000);
    assert_eq!(record.callback_count, 1);
}

#[test]
fn snapshot_order_does_not_matter() {
    let a = RecordMap::from_entries(vec![
        ("x".to_string(), CallbackRecord::new(1)),
        ("y".to_string(), CallbackRecord::new(2)),
    ]);
    let b = RecordMap::from_entries(vec![
        ("y".to_string(), CallbackRecord::new(2)),
        ("x".to_string(), CallbackRecord::new(1)),
    ]);
    assert_eq!(a.len(), b.len());
    for key in ["x", "y", "z"] {
        assert_eq!(a.get(key), b.get(key));
    }
    let round_trip = RecordMap::from_entries(a.to_entries());
    assert_eq!(round_trip.get("x"), Some(CallbackRecord::new(1)));
    assert_eq!(round_trip.len(), 2);
}

#[test]
fn file_persister_keeps_the_given_path() {
    let p = std::path::PathBuf::from("/var/lib/cronbird/state.json");
    let persister = FilePersister::with_path(p.clone(), 0);
    assert_eq!(persister.path(), &p);
    assert_eq!(persister.interval_seconds(), 0);
}

#[test]
fn identity_set_holds_each_name_once() {
    let mut set = IdentitySet::new();
    assert!(set.is_empty());
    assert!(set.insert("a".to_string()));
    assert!(!set.insert("a".to_string()));
    assert!(set.insert("b".to_string()));
    assert_eq!(set.len(), 2);
    assert!(set.contains("b"));
    assert!(!set.contains("c"));
}
