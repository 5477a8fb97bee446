use cronbird::domain::{CallbackRecord, Identity, IdentityError};

#[test]
fn test_identity_valid() {
    assert!(Identity::new("clickhouse-backup-prod").is_ok());
    assert!(Identity::new("pg_backup_staging").is_ok());
    assert!(Identity::new("backup123").is_ok());
    assert!(Identity::new("a").is_ok());
}

#[test]
fn test_identity_empty() {
    assert!(matches!(Identity::new(""), Err(IdentityError::Empty)));
}

#[test]
fn test_identity_too_long() {
    let long_name = "a".repeat(129);
    assert!(matches!(
        Identity::new(long_name),
        Err(IdentityError::TooLong(_))
    ));
}

#[test]
fn test_identity_invalid_chars() {
    assert!(matches!(
        Identity::new("backup/prod"),
        Err(IdentityError::InvalidCharacters)
    ));
    assert!(matches!(
        Identity::new("backup prod"),
        Err(IdentityError::InvalidCharacters)
    ));
    assert!(matches!(
        Identity::new("backup@prod"),
        Err(IdentityError::InvalidCharacters)
    ));
}

#[test]
fn test_callback_record_new() {
    let record = CallbackRecord::new(1234567890);
    assert_eq!(record.last_callback_ts, 1234567890);
    assert_eq!(record.callback_count, 1);
}

#[test]
fn test_callback_record_update() {
    let mut record = CallbackRecord::new(1000);
    record.record_callback(2000);
    assert_eq!(record.last_callback_ts, 2000);
    assert_eq!(record.callback_count, 2);

    record.record_callback(3000);
    assert_eq!(record.last_callback_ts, 3000);
    assert_eq!(record.callback_count, 3);
}

#[test]
fn identity_of_exactly_128_bytes_is_accepted() {
    let name = "x".repeat(128);
    let id = Identity::new(name.clone()).unwrap();
    assert_eq!(id.as_str(), name.as_str());
    assert_eq!(id.into_string(), name);
}

#[test]
fn identity_too_long_reports_byte_length() {
    assert_eq!(Identity::new("a".repeat(200)).unwrap_err(), IdentityError::TooLong(200));
    // 70 two-byte characters: 140 bytes, counted before the characters.
    assert_eq!(Identity::new("é".repeat(70)).unwrap_err(), IdentityError::TooLong(140));
    // 60 two-byte characters fit in 128 bytes but are not allowed.
    assert_eq!(
        Identity::new("é".repeat(60)).unwrap_err(),
        IdentityError::InvalidCharacters
    );
}

#[test]
fn identity_accepts_every_allowed_character_class() {
    assert!(Identity::new("AZaz09_-").is_ok());
    assert!(Identity::new("a.b").is_err());
}

#[test]
fn identity_clone_keeps_text() {
    let id = Identity::new("job-1").unwrap();
    let copy = id.clone();
    assert_eq!(copy.as_str(), "job-1");
    assert_eq!(copy, id);
}

#[test]
fn identity_error_messages() {
    assert_eq!(IdentityError::Empty.to_string(), "Identity cannot be empty");
    assert_eq!(
        IdentityError::TooLong(129).to_string(),
        "Identity is too long: 129 characters (max 128)"
    );
    assert_eq!(
        IdentityError::InvalidCharacters.to_string(),
        "Identity contains invalid characters (only a-zA-Z0-9_- allowed)"
    );
}

#[test]
fn callback_count_saturates() {
    let mut record = CallbackRecord {
        last_callback_ts: 5,
        callback_count: u64::MAX,
    };
    record.record_callback(6);
    assert_eq!(record.callback_count, u64::MAX);
    assert_eq!(record.last_callback_ts, 6);
}

#[test]
fn identity_as_ref() {
    let id = Identity::new("abc").unwrap();
    let s: &str = id.as_ref();
    assert_eq!(s, "abc");
}
