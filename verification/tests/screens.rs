use dupekit::models::{DuplicateFile, DuplicateFileId, DuplicateGroup, GroupId, ScanSummary, Timestamp};
use dupekit::scanner::ScanEvent;
use dupekit::screens::{
    clamp_page, history_items, next_page, page_count, page_range, reclaimable_bytes, HistoryItem,
    RefreshSettings,
    ScanProgress, GROUPS_PER_PAGE,
};
use dupekit::storage::{Scan, ScanSettings, ScanStatus};

fn scan(name: Option<&str>, finished: Option<i128>) -> Scan {
    Scan {
        id: 3,
        name: name.map(|n| n.to_string()),
        started_at: Timestamp { nanos: 5_000_000_000 },
        finished_at: finished.map(|n| Timestamp { nanos: n }),
        status: ScanStatus::Completed,
        summary: Some(ScanSummary { duplicate_groups: 4, duplicate_files: 9, recoverable_bytes: 77 }),
        paths: vec![],
        settings: ScanSettings::default(),
        settings_recorded: true,
    }
}

#[test]
fn result_page_is_bounded_for_very_large_scans() {
    let total_groups = 250_000usize;
    let page = 20_833usize;
    let (start, end) = page_range(page, total_groups);
    assert_eq!(start, page * GROUPS_PER_PAGE);
    assert!(end - start <= GROUPS_PER_PAGE);
    assert_eq!(GROUPS_PER_PAGE, 12);
}

#[test]
fn pages_stay_within_the_groups() {
    assert_eq!(page_range(0, 5), (0, 5));
    assert_eq!(page_range(1, 30), (12, 24));
    assert_eq!(page_range(2, 30), (24, 30));
    assert_eq!(next_page(0, 30), 1);
    assert_eq!(next_page(2, 30), 2);
    assert_eq!(next_page(0, 0), 0);
    assert_eq!(clamp_page(5, 30), 2);
    assert_eq!(clamp_page(1, 30), 1);
    assert_eq!(clamp_page(3, 0), 0);
}

#[test]
fn refresh_form_shows_the_recorded_settings() {
    let form = RefreshSettings::from_scan(
        ScanSettings { min_size: Some(1_048_576), max_size: None, cache: true },
        true,
    );
    assert_eq!(form.min_size, "1 MB");
    assert_eq!(form.max_size, "");
    assert!(form.cache);
    assert!(!form.expanded);
    assert!(form.error.is_none());
    assert!(!form.legacy_unrecorded);
    assert_eq!(form.summary(), "Min 1 MB · Max none · Cache on");
    let legacy = RefreshSettings::from_scan(ScanSettings::default(), false);
    assert!(legacy.legacy_unrecorded);
}

#[test]
fn refresh_form_reads_back_its_settings() {
    let settings = ScanSettings { min_size: Some(1_310_720), max_size: Some(2_684_354_560), cache: false };
    let form = RefreshSettings::from_scan(settings, true);
    assert_eq!(form.stored(), Ok(settings));
    assert_eq!(form.summary(), "Min 1.25 MB · Max 2.5 GB · Cache off");
}

#[test]
fn refresh_form_refuses_bad_fields() {
    let mut form = RefreshSettings::from_scan(ScanSettings::default(), true);
    form.min_size = "2 MB".to_string();
    form.max_size = "1 MB".to_string();
    assert_eq!(
        form.stored(),
        Err("Minimum file size cannot exceed maximum file size.".to_string())
    );
    form.min_size = "lots".to_string();
    assert_eq!(
        form.stored(),
        Err("Minimum file size must be a number followed by an optional unit (for example, 1 MB)."
            .to_string())
    );
    form.min_size = "  ".to_string();
    form.max_size = "1 XB".to_string();
    assert_eq!(
        form.stored(),
        Err("Maximum file size uses an unknown unit. Use B, KB, MB, GB, or TB.".to_string())
    );
    form.max_size = String::new();
    assert_eq!(form.stored(), Ok(ScanSettings { min_size: None, max_size: None, cache: true }));
}

#[test]
fn summary_trims_the_fields() {
    let mut form = RefreshSettings::from_scan(ScanSettings::default(), true);
    form.min_size = "  3 kb \t".to_string();
    form.max_size = " ".to_string();
    assert_eq!(form.summary(), "Min 3 kb · Max none · Cache on");
}

#[test]
fn history_rows_name_and_date_their_scans() {
    let named = HistoryItem::from_scan(&scan(Some("Photos"), Some(12_345_000_000)));
    assert_eq!(named.id, 3);
    assert_eq!(named.name, "Photos");
    assert_eq!(named.date, "12 UTC");
    assert_eq!(named.status, ScanStatus::Completed);
    assert_eq!(named.groups, 4);
    assert_eq!(named.bytes, 77);
    let unnamed = HistoryItem::from_scan(&scan(None, None));
    assert_eq!(unnamed.name, "Untitled scan");
    assert_eq!(unnamed.date, "5 UTC");
    let mut bare = scan(None, None);
    bare.summary = None;
    let row = HistoryItem::from_scan(&bare);
    assert_eq!((row.groups, row.bytes), (0, 0));
    let rows = history_items(&[scan(Some("A"), None), scan(Some("B"), None)]);
    assert_eq!(rows.len(), 2);
    assert_eq!(rows[1].name, "B");
}

#[test]
fn progress_reducer_only_uses_scanner_totals() {
    let mut progress = ScanProgress::default();
    assert_eq!(progress.phase, "Starting scan");
    progress.apply(&ScanEvent::PhaseStarted { name: "Full hashing".into(), total: Some(100) });
    progress.apply(&ScanEvent::Progress { processed: 25, total: Some(100) });
    assert_eq!(progress.phase, "Full hashing");
    assert_eq!((progress.processed, progress.total), (25, Some(100)));
    progress.apply(&ScanEvent::PhaseStarted { name: "Finalizing".into(), total: None });
    assert_eq!(progress.total, None);
}

#[test]
fn progress_never_goes_back_and_keeps_a_known_total() {
    let mut progress = ScanProgress::default();
    progress.apply(&ScanEvent::PhaseStarted { name: "Grouping".into(), total: Some(50) });
    progress.apply(&ScanEvent::Progress { processed: 30, total: Some(50) });
    progress.apply(&ScanEvent::Progress { processed: 20, total: None });
    assert_eq!((progress.processed, progress.total), (30, Some(50)));
    progress.apply(&ScanEvent::FilesDiscovered(8));
    assert_eq!(progress.phase, "Found 8 files in duplicate groups");
    assert_eq!((progress.processed, progress.total), (8, None));
    progress.apply(&ScanEvent::Cancelled);
    assert_eq!(progress.processed, 8);
    progress.apply(&ScanEvent::Started);
    assert_eq!(progress.phase, "Starting scan");
    assert_eq!(progress.processed, 0);
}

#[test]
fn page_counts_and_reclaimable_bytes() {
    assert_eq!(page_count(0), 1);
    assert_eq!(page_count(12), 1);
    assert_eq!(page_count(13), 2);
    let file = |id: u64, size: u64| DuplicateFile {
        id: DuplicateFileId(id),
        path: format!("/f{id}").into_bytes(),
        size,
        modified: None,
    };
    let a = DuplicateGroup::new(GroupId(1), 10, vec![file(1, 10), file(2, 10), file(3, 10)]).unwrap();
    let b = DuplicateGroup::new(GroupId(2), 5, vec![file(4, 5), file(5, 5)]).unwrap();
    assert_eq!(reclaimable_bytes(&[a, b]), 25);
    assert_eq!(reclaimable_bytes(&[]), 0);
}
