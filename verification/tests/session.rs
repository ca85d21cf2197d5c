use dupekit::models::ScanPath;
use dupekit::path::same_path;
use dupekit::session::{
    add_path, apply_notice, notice_message, toggle_preferred, CancelDecision, CleanupEnd,
    ConfirmDecision, Created, Notice, NoticeChange, RefreshDecision, Reopened, ScanEnd, ScanKind,
    Screen, Session, StartDecision,
};

fn scanning(kind: ScanKind) -> (Session, u64) {
    let mut s = Session::new();
    let created = match kind {
        ScanKind::Initial => Created::Saved(7),
        ScanKind::Refresh => Created::NotNeeded,
    };
    let (run, notice) = s.begin_scan(kind, created);
    assert_eq!(notice, NoticeChange::Clear);
    (s, run)
}

fn reviewing() -> Session {
    let mut s = Session::new();
    s.reopened(Reopened::Loaded(3));
    s
}

#[test]
fn stale_run_messages_are_rejected() {
    let (mut s, run) = scanning(ScanKind::Initial);
    let before = s;
    assert_eq!(s.scan_completed(run.wrapping_sub(1), false), (ScanEnd::Stale, NoticeChange::Keep));
    assert_eq!(s, before);
    assert_eq!(s.screen, Screen::Scanning);
    assert_eq!(s.active_scan_run, Some(run));
}

#[test]
fn cancelling_scan_blocks_a_new_scan_until_its_worker_returns() {
    let (mut s, run) = scanning(ScanKind::Initial);
    assert_eq!(s.cancel_scan(), CancelDecision::RecordCancelled(7));
    assert_eq!(s.screen, Screen::Cancelling);
    assert_eq!(s.active_scan_id, None);
    assert_eq!(
        s.start_scan(true, true),
        (StartDecision::Refused, NoticeChange::Replace(Notice::ScanAlreadyRunning))
    );
    s.home();
    assert_eq!(s.screen, Screen::Cancelling);
    assert_eq!(s.scan_completed(run, false), (ScanEnd::CancelledInitial, NoticeChange::Keep));
    assert_eq!(s.screen, Screen::Home);
    assert!(!s.scan_worker_active());
    assert_eq!(s.start_scan(true, true), (StartDecision::Begin, NoticeChange::Keep));
}

#[test]
fn cancelled_worker_success_is_discarded_after_releasing_the_lock() {
    let (mut s, run) = scanning(ScanKind::Initial);
    s.cancel_scan();
    assert_eq!(s.scan_completed(run, true), (ScanEnd::CancelledInitial, NoticeChange::Keep));
    assert_eq!(s.active_scan_run, None);
    assert_eq!(s.running_scan_id, None);
    assert!(!s.has_review);
}

#[test]
fn failed_refresh_restores_results_and_keeps_completed_history() {
    let mut s = reviewing();
    assert_eq!(s.refresh(true), RefreshDecision::Begin);
    let (run, _) = s.begin_scan(ScanKind::Refresh, Created::NotNeeded);
    assert_eq!(s.running_scan_id, Some(3));
    assert_eq!(
        s.scan_completed(run, false),
        (ScanEnd::FailedRefresh, NoticeChange::Add(Notice::RefreshFailed))
    );
    assert_eq!(s.screen, Screen::Results);
    assert_eq!(s.active_scan_id, Some(3));
    assert!(s.has_review);
}

#[test]
fn cancelled_refresh_restores_results_and_keeps_completed_history() {
    let mut s = reviewing();
    let (run, _) = s.begin_scan(ScanKind::Refresh, Created::NotNeeded);
    assert_eq!(s.cancel_scan(), CancelDecision::Cancelled);
    assert_eq!(s.active_scan_id, Some(3));
    assert_eq!(
        s.scan_completed(run, true),
        (ScanEnd::CancelledRefresh, NoticeChange::Add(Notice::RefreshCancelled))
    );
    assert_eq!(s.screen, Screen::Results);
    assert_eq!(s.active_scan_id, Some(3));
}

#[test]
fn stale_cleanup_completion_cannot_change_the_current_screen() {
    let mut s = reviewing();
    s.ask_cleanup(false, 1, 42);
    let (d, _) = s.confirm_cleanup();
    let run = match d {
        ConfirmDecision::Plan { run, permanent } => {
            assert!(!permanent);
            run
        }
        ConfirmDecision::Ignored => panic!("cleanup should be planned"),
    };
    s.cleanup_planned(run, false, Some(1));
    let before = s;
    assert_eq!(s.cleanup_finished(run + 1, Some(3), false, 1, 42), CleanupEnd::Stale);
    assert_eq!(s.cleanup_refused(run + 1), (CleanupEnd::Stale, NoticeChange::Keep));
    assert_eq!(s, before);
    assert_eq!(s.cleanup_finished(run, Some(3), false, 1, 42), CleanupEnd::Finished { reload: true });
    assert_eq!(s.screen, Screen::CleanupDone { permanent: false, count: 1, bytes: 42 });
}

#[test]
fn a_first_scan_is_saved_then_shown() {
    let (mut s, run) = scanning(ScanKind::Initial);
    assert_eq!(s.scan_completed(run, true), (ScanEnd::Save(7), NoticeChange::Keep));
    assert_eq!(s.results_saved(7, ScanKind::Initial, true), (ScanEnd::ShowNew, NoticeChange::Keep));
    assert_eq!(s.screen, Screen::Results);
    assert_eq!(s.active_scan_id, Some(7));
    assert!(s.has_review);
}

#[test]
fn a_failed_first_scan_is_recorded_and_goes_home() {
    let (mut s, run) = scanning(ScanKind::Initial);
    assert_eq!(s.scan_completed(run, false), (ScanEnd::RecordFailure(7), NoticeChange::Keep));
    assert_eq!(
        s.failure_recorded(7, false),
        (
            ScanEnd::FailedInitial,
            NoticeChange::Add(Notice::FailureNotRecorded),
            NoticeChange::Add(Notice::ScanFailed)
        )
    );
    assert_eq!(s.screen, Screen::Home);
    assert_eq!(s.active_scan_id, None);
}

#[test]
fn a_refresh_that_cannot_be_saved_keeps_the_results() {
    let mut s = reviewing();
    let (run, _) = s.begin_scan(ScanKind::Refresh, Created::NotNeeded);
    assert_eq!(s.scan_completed(run, true), (ScanEnd::Save(3), NoticeChange::Keep));
    assert_eq!(
        s.results_saved(3, ScanKind::Refresh, false),
        (ScanEnd::ShowPrevious, NoticeChange::Add(Notice::ResultsNotSaved))
    );
    assert_eq!(s.screen, Screen::Results);
}

#[test]
fn scans_are_refused_without_folders_or_good_settings() {
    let s = Session::new();
    assert_eq!(s.start_scan(false, true), (StartDecision::Refused, NoticeChange::Replace(Notice::NoFolders)));
    assert_eq!(s.start_scan(true, false), (StartDecision::Refused, NoticeChange::Replace(Notice::Settings)));
    assert_eq!(s.refresh(true), RefreshDecision::Ignored);
    let r = reviewing();
    assert_eq!(r.refresh(false), RefreshDecision::SettingsRefused);
}

#[test]
fn an_unsaved_scan_record_is_reported() {
    let mut s = Session::new();
    let (run, notice) = s.begin_scan(ScanKind::Initial, Created::NotSaved);
    assert_eq!(run, 1);
    assert_eq!(notice, NoticeChange::Replace(Notice::HistoryNotSaved));
    assert_eq!(s.active_scan_id, None);
    assert_eq!(s.scan_completed(run, true), (ScanEnd::ShowNew, NoticeChange::Keep));
}

#[test]
fn permanent_deletion_needs_acknowledgement() {
    let mut s = reviewing();
    s.ask_cleanup(true, 2, 84);
    assert_eq!(
        s.confirm_cleanup(),
        (ConfirmDecision::Ignored, NoticeChange::Replace(Notice::AcknowledgePermanent))
    );
    s.acknowledge(true);
    assert_eq!(s.confirm_cleanup().0, ConfirmDecision::Plan { run: 1, permanent: true });
    s.cleanup_planned(1, true, Some(2));
    assert_eq!(s.screen, Screen::Cleaning { permanent: true, total: 2 });
    s.ask_cleanup(false, 1, 1);
    assert_eq!(s.screen, Screen::Cleaning { permanent: true, total: 2 });
    s.open_history();
    assert_eq!(s.screen, Screen::Cleaning { permanent: true, total: 2 });
    assert!(!s.may_reopen());
}

#[test]
fn a_refused_cleanup_returns_to_the_results() {
    let mut s = reviewing();
    s.ask_cleanup(false, 1, 5);
    s.confirm_cleanup();
    assert_eq!(s.cleanup_planned(1, false, None), NoticeChange::Replace(Notice::CleanupNotStarted));
    s.cleanup_planned(1, false, Some(1));
    assert_eq!(s.cleanup_refused(1), (CleanupEnd::Refused, NoticeChange::Replace(Notice::CleanupRefused)));
    assert_eq!(s.screen, Screen::Results);
    s.ask_cleanup(false, 1, 5);
    s.cancel_confirm();
    assert_eq!(s.screen, Screen::Results);
    let mut fresh = Session::new();
    fresh.cancel_confirm();
    assert_eq!(fresh.screen, Screen::Home);
}

#[test]
fn reopening_needs_a_completed_scan() {
    let mut s = Session::new();
    assert_eq!(s.reopened(Reopened::NotCompleted), NoticeChange::Replace(Notice::NotCompleted));
    assert_eq!(s.screen, Screen::Home);
    s.open_history();
    assert_eq!(s.screen, Screen::History);
    s.reopened(Reopened::Loaded(9));
    assert_eq!(s.screen, Screen::Results);
    assert_eq!(s.active_scan_id, Some(9));
}

#[test]
fn notices_read_and_stack() {
    assert_eq!(notice_message(Notice::ScanFailed, "disk gone"), "Scan failed: disk gone");
    assert_eq!(
        notice_message(Notice::NoFolders, ""),
        "Add at least one folder before starting a scan."
    );
    let first = apply_notice(None, NoticeChange::Replace(Notice::Settings), "bad size");
    assert_eq!(first, Some("bad size".to_string()));
    let both = apply_notice(first, NoticeChange::Add(Notice::ScanFailed), "x");
    assert_eq!(both, Some("bad size\nScan failed: x".to_string()));
    assert_eq!(apply_notice(both.clone(), NoticeChange::Keep, ""), both);
    assert_eq!(apply_notice(both, NoticeChange::Clear, ""), None);
}

#[test]
fn picked_folders_are_added_once() {
    let mut paths = vec![ScanPath { path: b"/a/b".to_vec(), preferred: true }];
    add_path(&mut paths, b"/a//b/".to_vec());
    assert_eq!(paths.len(), 1);
    add_path(&mut paths, b"/a/c".to_vec());
    assert_eq!(paths.len(), 2);
    assert!(!paths[1].preferred);
    toggle_preferred(&mut paths, 1);
    assert!(paths[1].preferred);
    toggle_preferred(&mut paths, 5);
    assert_eq!(paths.len(), 2);
    assert!(same_path(b"/x/./y", b"/x/y"));
    assert!(!same_path(b"/x/y", b"/x"));
}
