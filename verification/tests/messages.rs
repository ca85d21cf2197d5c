use dupekit::cleanup::{CleanupAction, CleanupError, CleanupPlan, CleanupPreflight};
use dupekit::messages::preflight_failure_message;
use dupekit::models::{DuplicateFileId, SelectionError};
use dupekit::scanner::ScanError;
use dupekit::storage::{ColumnError, StorageError};

fn preflight(missing: Vec<&[u8]>, changed: Vec<&[u8]>) -> CleanupPreflight {
    CleanupPreflight {
        plan: CleanupPlan { action: CleanupAction::Trash, files: vec![], bytes: 0 },
        missing: missing.into_iter().map(|p| p.to_vec()).collect(),
        changed: changed.into_iter().map(|p| p.to_vec()).collect(),
    }
}

#[test]
fn selection_error_messages() {
    assert_eq!(
        SelectionError::UnknownFile(DuplicateFileId(7)).message(),
        "file DuplicateFileId(7) is not in this duplicate group"
    );
    assert_eq!(
        SelectionError::WouldSelectEveryCopy.message(),
        "a duplicate group must retain at least one file"
    );
    assert_eq!(SelectionError::NotDuplicate.message(), "a duplicate group needs at least two files");
}

#[test]
fn cleanup_error_messages() {
    assert_eq!(
        CleanupError::UnsafePreflight { missing: 2, changed: 1 }.message(),
        "cleanup preflight rejected 2 missing and 1 changed files"
    );
    assert_eq!(
        CleanupError::InvalidSelection(SelectionError::WouldSelectEveryCopy).message(),
        "invalid duplicate selection: a duplicate group must retain at least one file"
    );
}

#[test]
fn scan_error_messages() {
    assert_eq!(ScanError::NoPaths.message(), "at least one scan path is required");
    assert_eq!(ScanError::InvalidSizeRange.message(), "minimum size exceeds maximum size");
    assert_eq!(ScanError::Cancelled.message(), "scan cancelled");
    assert_eq!(
        ScanError::Fclones("disk gone".to_string()).message(),
        "fclones scan failed: disk gone"
    );
}

#[test]
fn storage_error_messages() {
    assert_eq!(StorageError::ScanNotFound(-3).message(), "scan -3 does not exist");
    assert_eq!(
        StorageError::FileNotFound(DuplicateFileId(12)).message(),
        "file DuplicateFileId(12) does not exist"
    );
    assert_eq!(
        StorageError::LastCopySelected { file_id: DuplicateFileId(5) }.message(),
        "selecting file DuplicateFileId(5) would select every copy in its duplicate group"
    );
    assert_eq!(
        StorageError::InvalidTime.message(),
        "system time is outside SQLite's supported range"
    );
    assert_eq!(
        StorageError::IncompatiblePath.message(),
        "path data was not encoded for this operating system"
    );
    assert_eq!(
        StorageError::Database("locked".to_string()).message(),
        "database error: locked"
    );
    assert_eq!(
        StorageError::Column(ColumnError::IntegralValueOutOfRange { column: 0, value: -1 })
            .message(),
        "database error: Integer -1 out of range at index 0"
    );
    assert_eq!(
        ColumnError::InvalidStatus.message(),
        "Invalid column type Text at index: 0, name: status"
    );
}

#[test]
fn paths_are_displayed_with_invalid_bytes_replaced() {
    let m = preflight_failure_message(&preflight(vec![b"/tmp/a\xffb"], vec!["/photos/été".as_bytes()]));
    assert!(m.contains("Missing: /tmp/a\u{FFFD}b. Changed: /photos/été. Refresh"));
}

#[test]
fn preflight_message_lists_missing_and_changed_files() {
    let m = preflight_failure_message(&preflight(vec![b"/a"], vec![b"/b", b"/c"]));
    assert_eq!(
        m,
        "Cleanup stopped before removing any files because the selected files no longer match \
         the scan. Missing: /a. Changed: /b, /c. Refresh the results and review the selection; \
         if this repeats, another application may be updating those files."
    );
}

#[test]
fn preflight_message_shows_four_paths_and_counts_the_rest() {
    let m = preflight_failure_message(&preflight(
        vec![],
        vec![b"/1", b"/2", b"/3", b"/4", b"/5", b"/6"],
    ));
    assert_eq!(
        m,
        "Cleanup stopped before removing any files because the selected files no longer match \
         the scan. Changed: /1, /2, /3, /4, and 2 more. Refresh the results and review the \
         selection; if this repeats, another application may be updating those files."
    );
}

#[test]
fn preflight_message_shows_undecodable_names() {
    let m = preflight_failure_message(&preflight(vec![b"/x\xff"], vec![]));
    assert!(m.contains("Missing: /x\u{FFFD}. Refresh"));
}
