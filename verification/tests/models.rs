use dupekit::models::{
    DuplicateFile, DuplicateFileId, DuplicateGroup, GroupId, ScanResult, SelectionError,
    SelectionPolicy, Timestamp,
};

fn seconds(s: i128) -> Option<Timestamp> {
    Some(Timestamp { nanos: s * 1_000_000_000 })
}

fn file(id: u64, path: &str, modified: Option<Timestamp>) -> DuplicateFile {
    DuplicateFile { id: DuplicateFileId(id), path: path.as_bytes().to_vec(), size: 10, modified }
}

fn group() -> DuplicateGroup {
    DuplicateGroup::new(
        GroupId(1),
        10,
        vec![
            file(1, "/normal/a", seconds(5)),
            file(2, "/preferred/b", seconds(10)),
            file(3, "/normal/c", None),
        ],
    )
    .unwrap()
}

#[test]
fn cannot_select_all_copies() {
    let mut g = group();
    g.set_selected(DuplicateFileId(1), true).unwrap();
    g.set_selected(DuplicateFileId(2), true).unwrap();
    assert_eq!(
        g.set_selected(DuplicateFileId(3), true),
        Err(SelectionError::WouldSelectEveryCopy)
    );
}

#[test]
fn preferred_policy_keeps_preferred_copy() {
    let mut g = group();
    g.apply_selection(SelectionPolicy::PreferPreferredDirectories, &[b"/preferred".to_vec()]);
    assert!(!g.is_selected(DuplicateFileId(2)));
    assert_eq!(g.selected_ids().len(), 2);
}

#[test]
fn newest_and_oldest_are_deterministic_with_missing_times() {
    let mut g = group();
    g.apply_selection(SelectionPolicy::KeepNewest, &[]);
    assert!(!g.is_selected(DuplicateFileId(2)));
    g.apply_selection(SelectionPolicy::KeepOldest, &[]);
    assert!(!g.is_selected(DuplicateFileId(3)));
}

#[test]
fn a_group_needs_two_files() {
    let one = DuplicateGroup::new(GroupId(7), 10, vec![file(1, "/a", None)]);
    assert_eq!(one, Err(SelectionError::NotDuplicate));
    let none = DuplicateGroup::new(GroupId(7), 10, vec![]);
    assert_eq!(none, Err(SelectionError::NotDuplicate));
}

#[test]
fn a_new_group_selects_nothing() {
    let g = group();
    assert!(g.selected_ids().is_empty());
    assert_eq!(g.validate_selection(), Ok(()));
    assert_eq!(g.selected_bytes(), 0);
}

#[test]
fn unknown_file_is_refused_and_nothing_changes() {
    let mut g = group();
    assert_eq!(
        g.set_selected(DuplicateFileId(99), true),
        Err(SelectionError::UnknownFile(DuplicateFileId(99)))
    );
    assert!(g.selected_ids().is_empty());
}

#[test]
fn clearing_a_selected_file_is_always_allowed() {
    let mut g = group();
    g.set_selected(DuplicateFileId(1), true).unwrap();
    g.set_selected(DuplicateFileId(3), true).unwrap();
    assert_eq!(g.set_selected(DuplicateFileId(3), false), Ok(()));
    assert!(g.is_selected(DuplicateFileId(1)));
    assert!(!g.is_selected(DuplicateFileId(3)));
}

#[test]
fn reselecting_a_selected_file_when_one_copy_is_left_is_allowed() {
    let mut g = group();
    g.set_selected(DuplicateFileId(1), true).unwrap();
    g.set_selected(DuplicateFileId(2), true).unwrap();
    assert_eq!(g.set_selected(DuplicateFileId(2), true), Ok(()));
    assert_eq!(g.selected_ids().len(), 2);
}

#[test]
fn keep_first_selects_every_later_copy() {
    let mut g = group();
    g.apply_selection(SelectionPolicy::KeepFirst, &[]);
    assert!(!g.is_selected(DuplicateFileId(1)));
    assert!(g.is_selected(DuplicateFileId(2)));
    assert!(g.is_selected(DuplicateFileId(3)));
    assert_eq!(g.selected_bytes(), 20);
    let files: Vec<u64> = g.selected_files().iter().map(|f| f.id.0).collect();
    assert_eq!(files, vec![2, 3]);
}

#[test]
fn clear_selection_selects_nothing() {
    let mut g = group();
    g.apply_selection(SelectionPolicy::KeepFirst, &[]);
    g.apply_selection(SelectionPolicy::ClearSelection, &[]);
    assert!(g.selected_ids().is_empty());
}

#[test]
fn preferred_policy_without_a_preferred_copy_keeps_the_first() {
    let mut g = group();
    g.apply_selection(SelectionPolicy::PreferPreferredDirectories, &[b"/elsewhere".to_vec()]);
    assert!(!g.is_selected(DuplicateFileId(1)));
    assert_eq!(g.selected_ids().len(), 2);
}

#[test]
fn preferred_directory_matches_whole_components_only() {
    let mut g = DuplicateGroup::new(
        GroupId(2),
        10,
        vec![file(1, "/preferredx/a", None), file(2, "/preferred/b", None)],
    )
    .unwrap();
    g.apply_selection(SelectionPolicy::PreferPreferredDirectories, &[b"/preferred".to_vec()]);
    assert!(g.is_selected(DuplicateFileId(1)));
    assert!(!g.is_selected(DuplicateFileId(2)));
}

#[test]
fn newest_keeps_the_last_and_oldest_the_first_of_equal_times() {
    let mut g = DuplicateGroup::new(
        GroupId(3),
        10,
        vec![file(1, "/a", seconds(7)), file(2, "/b", seconds(7)), file(3, "/c", seconds(3))],
    )
    .unwrap();
    g.apply_selection(SelectionPolicy::KeepNewest, &[]);
    assert!(g.is_selected(DuplicateFileId(1)));
    assert!(!g.is_selected(DuplicateFileId(2)));
    g.apply_selection(SelectionPolicy::KeepOldest, &[]);
    assert!(!g.is_selected(DuplicateFileId(3)));
    let mut h = DuplicateGroup::new(
        GroupId(4),
        10,
        vec![file(1, "/a", seconds(3)), file(2, "/b", seconds(3))],
    )
    .unwrap();
    h.apply_selection(SelectionPolicy::KeepOldest, &[]);
    assert!(!h.is_selected(DuplicateFileId(1)));
    assert!(h.is_selected(DuplicateFileId(2)));
}

#[test]
fn scan_result_sums_its_groups() {
    let mut a = group();
    a.apply_selection(SelectionPolicy::KeepFirst, &[]);
    let b = DuplicateGroup::new(GroupId(2), 100, vec![file(4, "/x", None), file(5, "/y", None)])
        .unwrap();
    let result = ScanResult::from_groups(vec![a, b]);
    assert_eq!(result.summary.duplicate_groups, 2);
    assert_eq!(result.summary.duplicate_files, 5);
    assert_eq!(result.summary.recoverable_bytes, 20);
    assert_eq!(result.selected_file_count(), 2);
    assert_eq!(result.selected_bytes(), 20);
    assert_eq!(result.validate_selection(), Ok(()));
}

#[test]
fn empty_scan_result_is_empty() {
    let result = ScanResult::default();
    assert!(result.groups.is_empty());
    assert_eq!(result.selected_file_count(), 0);
    assert_eq!(result.selected_bytes(), 0);
}
