use carimbo::backup::{check_backup, Backup, ImportReport, BACKUP_VERSION};
use carimbo::error::CoreError;
use carimbo::import::ImportOutcome;

#[test]
fn own_backups_are_accepted() {
    let b = Backup::new(Vec::new(), Vec::new(), 123);
    assert_eq!(b.version, BACKUP_VERSION);
    assert_eq!(b.app, "carimbo");
    assert_eq!(b.exported_at, 123);
    assert!(check_backup(&b).is_ok());
}

#[test]
fn rejects_non_carimbo_json() {
    let mut b = Backup::new(Vec::new(), Vec::new(), 0);
    b.app = "other".into();
    match check_backup(&b) {
        Err(CoreError::Invalid(m)) => assert_eq!(m, "this file isn't a Carimbo backup"),
        other => panic!("unexpected {other:?}"),
    }
}

#[test]
fn rejects_newer_version() {
    let mut b = Backup::new(Vec::new(), Vec::new(), 0);
    b.version = 999;
    match check_backup(&b) {
        Err(CoreError::Invalid(m)) => {
            assert_eq!(m, "backup version 999 is newer than this app supports (1)")
        }
        other => panic!("unexpected {other:?}"),
    }
    b.version = 0;
    assert!(check_backup(&b).is_ok());
}

#[test]
fn report_counts() {
    let mut r = ImportReport::default();
    r.record_folder(true);
    r.record_folder(false);
    r.record_snippet(ImportOutcome::InsertedTriggerDropped);
    r.record_snippet(ImportOutcome::Skipped);
    assert_eq!((r.folders_added, r.snippets_added, r.triggers_dropped, r.skipped), (1, 1, 1, 2));
}
