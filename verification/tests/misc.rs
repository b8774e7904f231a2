use carimbo::clock::{new_id, now_ms, timestamp_of};
use carimbo::error::CoreError;
use carimbo::models::{ClipKind, FolderKind};
use carimbo::state::{expansion_status_of, AppPaths};

#[test]
fn timestamps_from_clock_readings() {
    assert_eq!(timestamp_of(Some(1_700_000_000_000)), 1_700_000_000_000);
    assert_eq!(timestamp_of(None), 0);
    assert_eq!(timestamp_of(Some(u128::from(u64::MAX) + 1)), 0);
    assert!(now_ms() > 1_600_000_000_000);
}

#[test]
fn ids_are_v4_uuids() {
    let a = new_id();
    let b = new_id();
    assert_eq!(a.len(), 36);
    assert_eq!(&a[14..15], "4");
    assert_ne!(a, b);
}

#[test]
fn kinds_round_trip() {
    for k in [FolderKind::Snippet, FolderKind::Clipboard] {
        assert_eq!(FolderKind::from_str(k.as_str()), k);
    }
    for k in [ClipKind::Text, ClipKind::Image] {
        assert_eq!(ClipKind::from_str(k.as_str()), k);
    }
    assert_eq!(FolderKind::from_str("other"), FolderKind::Snippet);
    assert_eq!(ClipKind::from_str("other"), ClipKind::Text);
}

#[test]
fn error_kinds() {
    assert_eq!(CoreError::NotFound.kind(), "not_found");
    assert_eq!(CoreError::DuplicateTrigger("x".into()).kind(), "duplicate_trigger");
    assert_eq!(CoreError::Invalid("x".into()).kind(), "invalid");
    assert_eq!(CoreError::Migration("x".into()).kind(), "migration");
    assert_eq!(CoreError::Other("x".into()).kind(), "other");
}

#[test]
fn expansion_status() {
    let s = expansion_status_of(Some(true));
    assert!(s.enabled && s.paused && s.supported);
    let s = expansion_status_of(None);
    assert!(!s.enabled && !s.paused && s.supported);
}

#[test]
fn data_paths() {
    let p = AppPaths { data_dir: std::path::PathBuf::from("data") };
    assert!(p.db_file().ends_with("carimbo.db"));
    assert!(p.clips_dir().ends_with("clips"));
    assert!(p.logs_dir().ends_with("logs"));
}

#[test]
fn error_messages_read_like_sentences() {
    assert_eq!(CoreError::NotFound.message(), "not found");
    assert_eq!(CoreError::Invalid("bad".into()).message(), "invalid input: bad");
    assert_eq!(CoreError::Migration("m1".into()).message(), "migration error: m1");
    assert_eq!(CoreError::Other("plain".into()).message(), "plain");
    assert_eq!(
        CoreError::DuplicateTrigger(";oi".into()).message(),
        "a snippet with trigger \";oi\" already exists"
    );
    assert_eq!(
        CoreError::DuplicateTrigger("a\"b".into()).message(),
        "a snippet with trigger \"a\\\"b\" already exists"
    );
    let db = CoreError::from(rusqlite::Error::QueryReturnedNoRows);
    assert_eq!(db.kind(), "sqlite");
    assert_eq!(db.message(), "database error: Query returned no rows");
}
