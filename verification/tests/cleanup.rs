use dupekit::cleanup::{
    snapshot, CleanupAction, CleanupError, CleanupPreflight, CleanupService, FileSnapshot,
    FileState,
};
use dupekit::models::{
    DuplicateFile, DuplicateFileId, DuplicateGroup, GroupId, ScanResult, Timestamp,
};

fn at(seconds: i128) -> Option<Timestamp> {
    Some(Timestamp { nanos: seconds * 1_000_000_000 })
}

fn result(path: &[u8], size: u64, modified: Option<Timestamp>) -> ScanResult {
    let mut keep = path.to_vec();
    keep.extend_from_slice(b".keep");
    let mut g = DuplicateGroup::new(
        GroupId(1),
        size,
        vec![
            DuplicateFile { id: DuplicateFileId(1), path: path.to_vec(), size, modified },
            DuplicateFile { id: DuplicateFileId(2), path: keep, size, modified: None },
        ],
    )
    .unwrap();
    g.set_selected(DuplicateFileId(1), true).unwrap();
    ScanResult::from_groups(vec![g])
}

#[test]
fn preflight_rejects_missing_file_without_deleting_anything() {
    let plan = CleanupService::plan(&result(b"/d/a", 4, at(9)), CleanupAction::PermanentDelete)
        .unwrap();
    let check = CleanupService::preflight(plan, vec![FileState::Missing]);
    assert_eq!(check.missing, vec![b"/d/a".to_vec()]);
    assert!(check.changed.is_empty());
    assert!(matches!(
        CleanupService::execute(check, vec![]),
        Err(CleanupError::UnsafePreflight { missing: 1, changed: 0 })
    ));
}

#[test]
fn preflight_rejects_changed_file() {
    let plan = CleanupService::plan(&result(b"/d/a", 4, at(9)), CleanupAction::PermanentDelete)
        .unwrap();
    let check =
        CleanupService::preflight(plan, vec![FileState::Present { len: 15, modified: at(9) }]);
    assert_eq!(check.changed, vec![b"/d/a".to_vec()]);
    assert!(check.missing.is_empty());
}

#[test]
fn permanent_delete_reports_recovered_bytes() {
    let plan = CleanupService::plan(&result(b"/d/a", 4, at(9)), CleanupAction::PermanentDelete)
        .unwrap();
    let check =
        CleanupService::preflight(plan, vec![FileState::Present { len: 4, modified: at(9) }]);
    let out = CleanupService::execute(check, vec![Ok(())]).unwrap();
    assert_eq!(out.recovered_bytes, 4);
    assert_eq!(out.removed, vec![b"/d/a".to_vec()]);
    assert!(out.failures.is_empty());
    assert_eq!(out.action, CleanupAction::PermanentDelete);
}

#[test]
fn plan_lists_selected_files_and_their_bytes() {
    let plan = CleanupService::plan(&result(b"/d/a", 4, at(9)), CleanupAction::Trash).unwrap();
    assert_eq!(plan.action, CleanupAction::Trash);
    assert_eq!(plan.bytes, 4);
    assert_eq!(
        plan.files,
        vec![FileSnapshot { path: b"/d/a".to_vec(), size: 4, modified: at(9) }]
    );
}

#[test]
fn plan_of_nothing_selected_is_empty() {
    let g = DuplicateGroup::new(
        GroupId(1),
        3,
        vec![
            DuplicateFile { id: DuplicateFileId(1), path: b"/x".to_vec(), size: 3, modified: None },
            DuplicateFile { id: DuplicateFileId(2), path: b"/y".to_vec(), size: 3, modified: None },
        ],
    )
    .unwrap();
    let plan = CleanupService::plan(&ScanResult::from_groups(vec![g]), CleanupAction::Trash)
        .unwrap();
    assert!(plan.files.is_empty());
    assert_eq!(plan.bytes, 0);
}

#[test]
fn unreadable_file_counts_as_changed() {
    let plan = CleanupService::plan(&result(b"/d/a", 4, at(9)), CleanupAction::Trash).unwrap();
    let check = CleanupService::preflight(plan, vec![FileState::Unreadable]);
    assert_eq!(check.changed, vec![b"/d/a".to_vec()]);
    assert_eq!(
        CleanupService::check(&check),
        Err(CleanupError::UnsafePreflight { missing: 0, changed: 1 })
    );
}

#[test]
fn changed_modification_time_counts_as_changed() {
    let plan = CleanupService::plan(&result(b"/d/a", 4, at(9)), CleanupAction::Trash).unwrap();
    let check =
        CleanupService::preflight(plan, vec![FileState::Present { len: 4, modified: at(10) }]);
    assert_eq!(check.changed, vec![b"/d/a".to_vec()]);
    let plan = CleanupService::plan(&result(b"/d/a", 4, None), CleanupAction::Trash).unwrap();
    let check =
        CleanupService::preflight(plan, vec![FileState::Present { len: 4, modified: at(10) }]);
    assert_eq!(check.changed, vec![b"/d/a".to_vec()]);
}

#[test]
fn unchanged_file_passes_the_check() {
    let plan = CleanupService::plan(&result(b"/d/a", 4, None), CleanupAction::Trash).unwrap();
    let check =
        CleanupService::preflight(plan, vec![FileState::Present { len: 4, modified: None }]);
    assert_eq!(CleanupService::check(&check), Ok(()));
}

#[test]
fn failed_removal_is_reported_and_not_counted() {
    let plan = CleanupService::plan(&result(b"/d/a", 4, at(1)), CleanupAction::Trash).unwrap();
    let check =
        CleanupService::preflight(plan, vec![FileState::Present { len: 4, modified: at(1) }]);
    let out = CleanupService::execute(check, vec![Err("permission denied".to_string())]).unwrap();
    assert_eq!(out.recovered_bytes, 0);
    assert!(out.removed.is_empty());
    assert_eq!(out.failures.len(), 1);
    assert_eq!(out.failures[0].path, b"/d/a".to_vec());
    assert_eq!(out.failures[0].message, "permission denied");
}

#[test]
fn snapshot_copies_path_size_and_time() {
    let f = DuplicateFile { id: DuplicateFileId(5), path: b"/p".to_vec(), size: 7, modified: at(3) };
    assert_eq!(snapshot(&f), FileSnapshot { path: b"/p".to_vec(), size: 7, modified: at(3) });
}

#[test]
fn execute_refuses_a_preflight_with_missing_and_changed_files() {
    let plan = CleanupService::plan(&result(b"/d/a", 4, None), CleanupAction::Trash).unwrap();
    let pf = CleanupPreflight { plan, missing: vec![b"/m".to_vec()], changed: vec![b"/c".to_vec()] };
    assert_eq!(
        CleanupService::execute(pf, vec![]),
        Err(CleanupError::UnsafePreflight { missing: 1, changed: 1 })
    );
}

#[test]
fn planned_bytes_are_the_selected_bytes() {
    let mut groups = Vec::new();
    for (gid, size, n) in [(1u64, 100u64, 3u64), (2, 7, 2)] {
        let files = (0..n)
            .map(|i| DuplicateFile {
                id: DuplicateFileId(gid * 10 + i),
                path: format!("/g{gid}/{i}").into_bytes(),
                size,
                modified: None,
            })
            .collect();
        let mut g = DuplicateGroup::new(GroupId(gid), size, files).unwrap();
        g.set_selected(DuplicateFileId(gid * 10), true).unwrap();
        if n == 3 {
            g.set_selected(DuplicateFileId(gid * 10 + 1), true).unwrap();
        }
        groups.push(g);
    }
    let r = ScanResult::from_groups(groups);
    let plan = CleanupService::plan(&r, CleanupAction::Trash).unwrap();
    assert_eq!(r.selected_bytes(), 207);
    assert_eq!(plan.bytes, r.selected_bytes());
}
