use dupekit::models::{DuplicateFileId, GroupId, ScanConfig, ScanPath, Timestamp};
use dupekit::scanner::{FclonesScanner, ProgressThrottle, RawFile, RawGroup, ScanError, ScanEvent};

fn config(paths: &[(&str, bool)]) -> ScanConfig {
    ScanConfig {
        paths: paths
            .iter()
            .map(|(p, preferred)| ScanPath { path: p.as_bytes().to_vec(), preferred: *preferred })
            .collect(),
        min_size: Some(1),
        max_size: None,
        cache: false,
    }
}

fn raw(len: u64, paths: &[&str]) -> RawGroup {
    RawGroup {
        file_len: len,
        files: paths
            .iter()
            .map(|p| RawFile { path: p.as_bytes().to_vec(), modified: None })
            .collect(),
    }
}

#[test]
fn progress_events_are_coalesced_but_finish_at_the_reported_total() {
    let mut progress = ProgressThrottle::with_step(Some(1_000), 100);
    let mut updates = Vec::new();
    for _ in 0..1_000 {
        if let Some(e) = progress.inc(1) {
            updates.push(e);
        }
    }
    assert!(updates.len() <= 10);
    assert!(matches!(
        updates.last(),
        Some(ScanEvent::Progress { processed: 1_000, total: Some(1_000) })
    ));
}

#[test]
fn rejects_bad_config_before_starting_worker() {
    assert!(matches!(FclonesScanner::prepare(&config(&[]), false), Err(ScanError::NoPaths)));
    let mut c = config(&[("/a", false)]);
    c.min_size = Some(10);
    c.max_size = Some(5);
    assert!(matches!(FclonesScanner::prepare(&c, false), Err(ScanError::InvalidSizeRange)));
}

#[test]
fn cancelled_before_start_emits_cancelled() {
    assert!(matches!(
        FclonesScanner::prepare(&config(&[("/a", false)]), true),
        Err(ScanError::Cancelled)
    ));
}

#[test]
fn request_copies_the_configuration() {
    let mut c = config(&[("/a", false), ("/b", true)]);
    c.min_size = None;
    c.max_size = Some(99);
    c.cache = true;
    let req = FclonesScanner::prepare(&c, false).unwrap();
    assert_eq!(req.paths, vec![b"/a".to_vec(), b"/b".to_vec()]);
    assert_eq!(req.min_size, 1);
    assert_eq!(req.max_size, Some(99));
    assert!(req.cache);
}

#[test]
fn finds_duplicates_and_initially_keeps_preferred_directory() {
    let c = config(&[("/regular", false), ("/preferred", true)]);
    let result = FclonesScanner::finish(
        vec![raw(17, &["/regular/a.txt", "/preferred/a.txt"])],
        &c,
        false,
    )
    .unwrap();
    assert_eq!(result.groups.len(), 1);
    let g = &result.groups[0];
    assert_eq!(g.files.len(), 2);
    assert!(g.is_selected(g.files[0].id));
    assert!(!g.is_selected(g.files[1].id));
    assert_eq!(result.summary.recoverable_bytes, 17);
}

#[test]
fn groups_and_files_are_numbered_in_the_finders_order() {
    let groups = FclonesScanner::assemble(
        vec![raw(5, &["/a", "/b"]), raw(6, &["/lonely"]), raw(7, &["/c", "/d", "/e"])],
        &[],
    );
    assert_eq!(groups.len(), 2);
    assert_eq!(groups[0].id, GroupId(1));
    assert_eq!(groups[1].id, GroupId(3));
    assert_eq!(groups[1].file_size, 7);
    let ids: Vec<DuplicateFileId> = groups[1].files.iter().map(|f| f.id).collect();
    assert_eq!(ids, vec![DuplicateFileId(4), DuplicateFileId(5), DuplicateFileId(6)]);
    assert!(!groups[1].is_selected(DuplicateFileId(4)));
    assert!(groups[1].is_selected(DuplicateFileId(5)));
    assert!(groups[1].is_selected(DuplicateFileId(6)));
}

#[test]
fn assembled_files_keep_size_and_time() {
    let t = Some(Timestamp { nanos: 77 });
    let groups = FclonesScanner::assemble(
        vec![RawGroup {
            file_len: 3,
            files: vec![
                RawFile { path: b"/x".to_vec(), modified: t },
                RawFile { path: b"/y".to_vec(), modified: None },
            ],
        }],
        &[],
    );
    assert_eq!(groups[0].files[0].size, 3);
    assert_eq!(groups[0].files[0].modified, t);
    assert_eq!(groups[0].files[1].modified, None);
}

#[test]
fn cancelled_scan_discards_the_groups() {
    let c = config(&[("/a", false)]);
    assert!(matches!(
        FclonesScanner::finish(vec![raw(5, &["/a/1", "/a/2"])], &c, true),
        Err(ScanError::Cancelled)
    ));
}

#[test]
fn preferred_roots_keep_order() {
    let c = config(&[("/a", true), ("/b", false), ("/c", true)]);
    assert_eq!(FclonesScanner::preferred_roots(&c.paths), vec![b"/a".to_vec(), b"/c".to_vec()]);
}

#[test]
fn throttle_steps_follow_the_total() {
    assert_eq!(ProgressThrottle::new(Some(10_000)).minimum_step, 50);
    assert_eq!(ProgressThrottle::new(Some(10)).minimum_step, 1);
    assert_eq!(ProgressThrottle::new(None).minimum_step, 1_024);
}

#[test]
fn throttle_without_total_reports_every_step() {
    let mut t = ProgressThrottle::with_step(None, 3);
    assert!(t.inc(1).is_none());
    assert!(t.inc(1).is_none());
    assert!(matches!(t.inc(1), Some(ScanEvent::Progress { processed: 3, total: None })));
    assert!(t.inc(2).is_none());
    assert!(matches!(t.inc(1), Some(ScanEvent::Progress { processed: 6, total: None })));
}

#[test]
fn a_cancelled_token_is_seen_by_its_clones() {
    let token = dupekit::cancel::CancellationToken::default();
    let worker_copy = token.clone();
    assert!(!worker_copy.is_cancelled());
    token.cancel();
    assert!(worker_copy.is_cancelled());
}
