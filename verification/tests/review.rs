use dupekit::models::{DuplicateFile, DuplicateFileId, DuplicateGroup, GroupId, ScanPath, SelectionPolicy};
use dupekit::review::{
    apply_policy, restore_selection_by_path, selection_by_path, toggle_file, totals, UiPolicy,
};

fn duplicate_group(id: u64, paths: &[&str], selected: &[usize]) -> DuplicateGroup {
    let files = paths
        .iter()
        .enumerate()
        .map(|(index, path)| DuplicateFile {
            id: DuplicateFileId(id * 100 + index as u64),
            path: path.as_bytes().to_vec(),
            size: 42,
            modified: None,
        })
        .collect();
    let mut group = DuplicateGroup::new(GroupId(id), 42, files).unwrap();
    for &index in selected {
        let file_id = group.files[index].id;
        group.set_selected(file_id, true).unwrap();
    }
    group
}

#[test]
fn file_row_toggle_preserves_a_copy_in_its_group() {
    let first = DuplicateFileId(1);
    let second = DuplicateFileId(2);
    let group = DuplicateGroup::new(
        GroupId(1),
        42,
        vec![
            DuplicateFile { id: first, path: b"first".to_vec(), size: 42, modified: None },
            DuplicateFile { id: second, path: b"second".to_vec(), size: 42, modified: None },
        ],
    )
    .unwrap();
    let mut groups = vec![group];
    toggle_file(&mut groups, first);
    assert!(groups[0].is_selected(first));
    toggle_file(&mut groups, second);
    assert!(groups[0].is_selected(first));
    assert!(!groups[0].is_selected(second));
}

#[test]
fn refresh_restores_known_choices_by_path_and_keeps_new_group_defaults() {
    let previous = vec![duplicate_group(1, &["/a", "/b"], &[1])];
    let selections = selection_by_path(&previous);
    let mut refreshed = vec![
        duplicate_group(2, &["/a", "/b", "/c"], &[2]),
        duplicate_group(3, &["/d", "/e"], &[1]),
    ];

    restore_selection_by_path(&mut refreshed, &selections);

    assert!(!refreshed[0].is_selected(refreshed[0].files[0].id));
    assert!(refreshed[0].is_selected(refreshed[0].files[1].id));
    assert!(refreshed[0].is_selected(refreshed[0].files[2].id));
    assert!(refreshed[1].is_selected(refreshed[1].files[1].id));
}

#[test]
fn refresh_regrouping_never_selects_every_copy() {
    let previous = vec![
        duplicate_group(1, &["/keep-a", "/remove-a"], &[1]),
        duplicate_group(2, &["/keep-b", "/remove-b"], &[1]),
    ];
    let selections = selection_by_path(&previous);
    let mut regrouped = vec![duplicate_group(3, &["/remove-a", "/remove-b"], &[1])];

    restore_selection_by_path(&mut regrouped, &selections);

    assert_eq!(regrouped[0].selected_ids().len(), 1);
    assert!(regrouped[0].validate_selection().is_ok());
    assert!(!regrouped[0].is_selected(regrouped[0].files[0].id));
}

#[test]
fn refresh_preserves_a_clear_selection_for_known_paths() {
    let previous = vec![duplicate_group(1, &["/a", "/b"], &[])];
    let selections = selection_by_path(&previous);
    let mut refreshed = vec![duplicate_group(2, &["/a", "/b"], &[1])];

    restore_selection_by_path(&mut refreshed, &selections);

    assert!(refreshed[0].selected_ids().is_empty());
}

#[test]
fn toggling_twice_restores_the_selection() {
    let mut groups = vec![duplicate_group(1, &["/a", "/b", "/c"], &[])];
    toggle_file(&mut groups, DuplicateFileId(101));
    assert!(groups[0].is_selected(DuplicateFileId(101)));
    toggle_file(&mut groups, DuplicateFileId(101));
    assert!(!groups[0].is_selected(DuplicateFileId(101)));
}

#[test]
fn toggling_an_unknown_file_changes_nothing() {
    let mut groups = vec![duplicate_group(1, &["/a", "/b"], &[1])];
    toggle_file(&mut groups, DuplicateFileId(999));
    assert_eq!(groups[0].selected_ids().len(), 1);
    assert!(groups[0].is_selected(DuplicateFileId(101)));
}

#[test]
fn selection_by_path_records_every_file() {
    let groups = vec![duplicate_group(1, &["/a", "/b"], &[1])];
    let s = selection_by_path(&groups);
    assert_eq!(s.get(b"/a"), Some(false));
    assert_eq!(s.get(b"/b"), Some(true));
    assert_eq!(s.get(b"/c"), None);
    assert!(s.contains(b"/a"));
    assert!(!s.contains(b"/c"));
}

#[test]
fn a_path_seen_twice_keeps_its_later_choice() {
    let groups = vec![
        duplicate_group(1, &["/a", "/b"], &[0]),
        duplicate_group(2, &["/a", "/c"], &[1]),
    ];
    let s = selection_by_path(&groups);
    assert_eq!(s.get(b"/a"), Some(false));
}

#[test]
fn policy_applies_to_every_group() {
    let mut groups = vec![
        duplicate_group(1, &["/x/a", "/pref/b"], &[]),
        duplicate_group(2, &["/x/c", "/x/d", "/pref/e"], &[]),
    ];
    let preferred = vec![
        ScanPath { path: b"/pref".to_vec(), preferred: true },
        ScanPath { path: b"/x".to_vec(), preferred: false },
    ];
    apply_policy(&mut groups, UiPolicy::PreferPreferred, &preferred);
    assert!(groups[0].is_selected(DuplicateFileId(100)));
    assert!(!groups[0].is_selected(DuplicateFileId(101)));
    assert!(!groups[1].is_selected(DuplicateFileId(202)));
    assert_eq!(totals(&groups), (3, 126));
    apply_policy(&mut groups, UiPolicy::Clear, &preferred);
    assert_eq!(totals(&groups), (0, 0));
    apply_policy(&mut groups, UiPolicy::KeepFirst, &preferred);
    assert!(!groups[1].is_selected(DuplicateFileId(200)));
    assert_eq!(totals(&groups), (3, 126));
}

#[test]
fn policy_choices_and_labels() {
    assert_eq!(UiPolicy::KeepFirst.selection_policy(), SelectionPolicy::KeepFirst);
    assert_eq!(UiPolicy::KeepNewest.selection_policy(), SelectionPolicy::KeepNewest);
    assert_eq!(UiPolicy::KeepOldest.selection_policy(), SelectionPolicy::KeepOldest);
    assert_eq!(
        UiPolicy::PreferPreferred.selection_policy(),
        SelectionPolicy::PreferPreferredDirectories
    );
    assert_eq!(UiPolicy::Clear.selection_policy(), SelectionPolicy::ClearSelection);
    assert_eq!(UiPolicy::PreferPreferred.label(), "Prefer preferred directories");
    assert_eq!(UiPolicy::Clear.label(), "Clear selection");
}

#[test]
fn restoring_recorded_choices_to_the_same_groups_changes_nothing() {
    let groups = vec![
        duplicate_group(1, &["/a", "/b", "/c"], &[0, 2]),
        duplicate_group(2, &["/d", "/e"], &[]),
        duplicate_group(3, &["/f", "/g"], &[1]),
    ];
    let selections = selection_by_path(&groups);
    let mut again = groups.clone();
    restore_selection_by_path(&mut again, &selections);
    for (a, b) in groups.iter().zip(again.iter()) {
        assert_eq!(a.selected_ids(), b.selected_ids());
    }
}
