//! The decisions of an interactive session: which screen is shown, which
//! scan and cleanup runs are current, and what a finished run leads to.
//!
//! The session holds the control state only. The interface that drives it
//! keeps the reviewed groups, runs the scanner, the file operations and the
//! history database, and hands each outcome back; every step returns what
//! the interface is to do next and how the notice line changes.
use crate::models::ScanPath;
use crate::path::{path_components, same_path};
use crate::storage::ScanId;
use vstd::prelude::*;

verus! {

/// Why a scan was started: a first scan, or a refresh of shown results.
#[derive(Clone, Copy, Debug, PartialEq, Eq, Structural)]
pub enum ScanKind {
    Initial,
    Refresh,
}

/// The screen shown.
#[derive(Clone, Copy, Debug, PartialEq, Eq, Structural)]
pub enum Screen {
    Home,
    Scanning,
    /// A cancelled scan whose worker has not returned yet.
    Cancelling,
    Results,
    Confirm { permanent: bool, count: usize, bytes: u64, acknowledged: bool },
    Cleaning { permanent: bool, total: usize },
    CleanupDone { permanent: bool, count: usize, bytes: u64 },
    History,
}

/// The control state of a session.
#[derive(Clone, Copy, Debug, PartialEq, Eq, Structural)]
pub struct Session {
    pub screen: Screen,
    /// The number given to the last scan run.
    pub next_scan_run: u64,
    /// The scan run whose worker has not returned yet.
    pub active_scan_run: Option<u64>,
    /// The recorded scan that the running worker reports to.
    pub running_scan_id: Option<ScanId>,
    /// The recorded scan whose results are reviewed.
    pub active_scan_id: Option<ScanId>,
    /// Why the running scan was started.
    pub scan_kind: Option<ScanKind>,
    /// Whether the running scan was asked to stop.
    pub cancel_requested: bool,
    /// The number given to the last cleanup run.
    pub next_cleanup_run: u64,
    /// The cleanup run that has not reported back yet.
    pub active_cleanup_run: Option<u64>,
    /// Whether a reviewed result set is kept to come back to.
    pub has_review: bool,
}

/// The notices the session shows; `detail` is the error or text that
/// completes some of them.
#[derive(Clone, Copy, Debug, PartialEq, Eq, Structural)]
pub enum Notice {
    ScanAlreadyRunning,
    NoFolders,
    Settings,
    HistoryNotSaved,
    NoSavedConfiguration,
    RefreshCancelled,
    ResultsNotSaved,
    FailureNotRecorded,
    ScanFailed,
    RefreshFailed,
    CancellationNotSaved,
    AcknowledgePermanent,
    CleanupNotStarted,
    CleanupRefused,
    AuditNotSaved,
    NotReconciled,
    ReloadFailed,
    OpenFailed,
    NotCompleted,
    LoadFailed,
}

/// How a step changes the notice line.
#[derive(Clone, Copy, Debug, PartialEq, Eq, Structural)]
pub enum NoticeChange {
    Keep,
    Clear,
    /// Replaces the notice.
    Replace(Notice),
    /// Adds a line to the notice.
    Add(Notice),
}

/// The text of a notice.
pub open spec fn notice_text(n: Notice, detail: Seq<char>) -> Seq<char> {
    match n {
        Notice::ScanAlreadyRunning => "A scan is already running. Cancel or wait for it to finish first."@,
        Notice::NoFolders => "Add at least one folder before starting a scan."@,
        Notice::Settings => detail,
        Notice::HistoryNotSaved => "Could not save scan history: "@ + detail,
        Notice::NoSavedConfiguration => "Scan finished without its saved configuration."@,
        Notice::RefreshCancelled => "Refresh cancelled; previous results are unchanged."@,
        Notice::ResultsNotSaved => "Scan finished, but results could not be saved: "@ + detail,
        Notice::FailureNotRecorded => "Scan failed and history could not be updated: "@ + detail,
        Notice::ScanFailed => "Scan failed: "@ + detail,
        Notice::RefreshFailed => "Refresh failed; previous results are unchanged: "@ + detail,
        Notice::CancellationNotSaved => "Scan cancellation could not be saved: "@ + detail,
        Notice::AcknowledgePermanent => "Acknowledge permanent deletion before continuing."@,
        Notice::CleanupNotStarted => "Cleanup could not start: "@ + detail,
        Notice::CleanupRefused => detail,
        Notice::AuditNotSaved => "Files were cleaned, but the cleanup audit was not saved: "@
            + detail,
        Notice::NotReconciled => "Files were cleaned, but results could not be reconciled: "@
            + detail,
        Notice::ReloadFailed => "Files were cleaned, but refreshed results could not be loaded: "@
            + detail,
        Notice::OpenFailed => "Could not open saved scan: "@ + detail,
        Notice::NotCompleted => "Only completed scans have results that can be reopened."@,
        Notice::LoadFailed => "Could not load saved results: "@ + detail,
    }
}

/// The notice line after a change: an added line goes below the current
/// text.
pub open spec fn noticed(current: Option<Seq<char>>, change: NoticeChange, detail: Seq<char>) -> Option<
    Seq<char>,
> {
    match change {
        NoticeChange::Keep => current,
        NoticeChange::Clear => None,
        NoticeChange::Replace(n) => Some(notice_text(n, detail)),
        NoticeChange::Add(n) => match current {
            Some(t) => Some(t + seq!['\n'] + notice_text(n, detail)),
            None => Some(notice_text(n, detail)),
        },
    }
}

/// The text of a notice.
pub fn notice_message(n: Notice, detail: &str) -> (r: String)
    ensures
        r@ == notice_text(n, detail@),
{
    let mut out = String::new();
    match n {
        Notice::ScanAlreadyRunning => out.append(
            "A scan is already running. Cancel or wait for it to finish first.",
        ),
        Notice::NoFolders => out.append("Add at least one folder before starting a scan."),
        Notice::Settings => out.append(detail),
        Notice::HistoryNotSaved => {
            out.append("Could not save scan history: ");
            out.append(detail);
        },
        Notice::NoSavedConfiguration => out.append(
            "Scan finished without its saved configuration.",
        ),
        Notice::RefreshCancelled => out.append(
            "Refresh cancelled; previous results are unchanged.",
        ),
        Notice::ResultsNotSaved => {
            out.append("Scan finished, but results could not be saved: ");
            out.append(detail);
        },
        Notice::FailureNotRecorded => {
            out.append("Scan failed and history could not be updated: ");
            out.append(detail);
        },
        Notice::ScanFailed => {
            out.append("Scan failed: ");
            out.append(detail);
        },
        Notice::RefreshFailed => {
            out.append("Refresh failed; previous results are unchanged: ");
            out.append(detail);
        },
        Notice::CancellationNotSaved => {
            out.append("Scan cancellation could not be saved: ");
            out.append(detail);
        },
        Notice::AcknowledgePermanent => out.append(
            "Acknowledge permanent deletion before continuing.",
        ),
        Notice::CleanupNotStarted => {
            out.append("Cleanup could not start: ");
            out.append(detail);
        },
        Notice::CleanupRefused => out.append(detail),
        Notice::AuditNotSaved => {
            out.append("Files were cleaned, but the cleanup audit was not saved: ");
            out.append(detail);
        },
        Notice::NotReconciled => {
            out.append("Files were cleaned, but results could not be reconciled: ");
            out.append(detail);
        },
        Notice::ReloadFailed => {
            out.append("Files were cleaned, but refreshed results could not be loaded: ");
            out.append(detail);
        },
        Notice::OpenFailed => {
            out.append("Could not open saved scan: ");
            out.append(detail);
        },
        Notice::NotCompleted => out.append(
            "Only completed scans have results that can be reopened.",
        ),
        Notice::LoadFailed => {
            out.append("Could not load saved results: ");
            out.append(detail);
        },
    }
    out
}

/// The notice line after a change.
pub fn apply_notice(current: Option<String>, change: NoticeChange, detail: &str) -> (r: Option<
    String,
>)
    ensures
        r is Some <==> noticed(
            match current {
                Some(t) => Some(t@),
                None => None,
            },
            change,
            detail@,
        ) is Some,
        r matches Some(t) ==> noticed(
            match current {
                Some(t) => Some(t@),
                None => None,
            },
            change,
            detail@,
        ) == Some(t@),
{
    match change {
        NoticeChange::Keep => current,
        NoticeChange::Clear => None,
        NoticeChange::Replace(n) => Some(notice_message(n, detail)),
        NoticeChange::Add(n) => {
            let text = notice_message(n, detail);
            match current {
                Some(mut t) => {
                    t.append("\n");
                    t.append(text.as_str());
                    proof {
                        reveal_strlit("\n");
                    }
                    Some(t)
                },
                None => Some(text),
            }
        },
    }
}


/// The number after `n`, wrapping to zero.
pub open spec fn next_run(n: u64) -> u64 {
    if n == u64::MAX {
        0
    } else {
        (n + 1) as u64
    }
}

fn next_run_of(n: u64) -> (r: u64)
    ensures
        r == next_run(n),
{
    if n == u64::MAX {
        0
    } else {
        n + 1
    }
}

/// Whether a scan worker or a cleanup is still running.
pub open spec fn busy(s: Session) -> bool {
    s.active_scan_run is Some || s.active_cleanup_run is Some
}

/// What the interface does after a request to start a scan.
#[derive(Clone, Copy, Debug, PartialEq, Eq, Structural)]
pub enum StartDecision {
    Refused,
    /// Record the scan, then call [`Session::begin_scan`].
    Begin,
}

pub open spec fn start_step(s: Session, has_paths: bool, settings_ok: bool) -> (
    StartDecision,
    NoticeChange,
) {
    if s.active_scan_run is Some {
        (StartDecision::Refused, NoticeChange::Replace(Notice::ScanAlreadyRunning))
    } else if !has_paths {
        (StartDecision::Refused, NoticeChange::Replace(Notice::NoFolders))
    } else if !settings_ok {
        (StartDecision::Refused, NoticeChange::Replace(Notice::Settings))
    } else {
        (StartDecision::Begin, NoticeChange::Keep)
    }
}

/// What became of recording a new scan.
#[derive(Clone, Copy, Debug, PartialEq, Eq, Structural)]
pub enum Created {
    /// A refresh reports to the scan already reviewed.
    NotNeeded,
    Saved(ScanId),
    NotSaved,
}

pub open spec fn begin_step(s: Session, kind: ScanKind, created: Created) -> (Session, u64, NoticeChange) {
    let run = next_run(s.next_scan_run);
    let active = match created {
        Created::Saved(id) => Some(id),
        Created::NotSaved => None,
        Created::NotNeeded => s.active_scan_id,
    };
    (
        Session {
            screen: Screen::Scanning,
            next_scan_run: run,
            active_scan_run: Some(run),
            running_scan_id: active,
            active_scan_id: active,
            scan_kind: Some(kind),
            cancel_requested: false,
            ..s
        },
        run,
        match created {
            Created::NotSaved => NoticeChange::Replace(Notice::HistoryNotSaved),
            _ => NoticeChange::Clear,
        },
    )
}

/// What the interface does after a request to refresh the shown results.
#[derive(Clone, Copy, Debug, PartialEq, Eq, Structural)]
pub enum RefreshDecision {
    Ignored,
    /// Show the settings error in the refresh form.
    SettingsRefused,
    /// Note the shown choices, then call [`Session::begin_scan`].
    Begin,
}

pub open spec fn refresh_step(s: Session, settings_ok: bool) -> RefreshDecision {
    if busy(s) || s.screen != Screen::Results {
        RefreshDecision::Ignored
    } else if !settings_ok {
        RefreshDecision::SettingsRefused
    } else {
        RefreshDecision::Begin
    }
}

/// What a scan worker's report leads to.
#[derive(Clone, Copy, Debug, PartialEq, Eq, Structural)]
pub enum ScanEnd {
    /// The report of an earlier run: nothing changes.
    Stale,
    NoConfiguration,
    /// The scan was cancelled: its result is dropped and home is shown.
    CancelledInitial,
    /// The refresh was cancelled: its result is dropped and the results it
    /// would have replaced are shown again.
    CancelledRefresh,
    /// Store the result under this scan, then call
    /// [`Session::results_saved`].
    Save(ScanId),
    /// Show the new result.
    ShowNew,
    /// Keep the result off screen: another screen is shown.
    NotShown,
    /// Show again the results that a refresh would have replaced.
    ShowPrevious,
    /// Record the scan as failed, then call [`Session::failure_recorded`].
    RecordFailure(ScanId),
    /// The scan failed: home is shown.
    FailedInitial,
    /// The refresh failed: the results it would have replaced are shown.
    FailedRefresh,
}

pub open spec fn shown_after(s: Session) -> (Session, ScanEnd) {
    if s.screen == Screen::Scanning {
        (Session { screen: Screen::Results, has_review: true, ..s }, ScanEnd::ShowNew)
    } else {
        (s, ScanEnd::NotShown)
    }
}

pub open spec fn failure_shown(s: Session, kind: ScanKind) -> (Session, ScanEnd, NoticeChange) {
    if s.screen == Screen::Scanning {
        match kind {
            ScanKind::Initial => (
                Session { screen: Screen::Home, ..s },
                ScanEnd::FailedInitial,
                NoticeChange::Add(Notice::ScanFailed),
            ),
            ScanKind::Refresh => (
                Session {
                    running_scan_id: None,
                    has_review: true,
                    screen: Screen::Results,
                    ..s
                },
                ScanEnd::FailedRefresh,
                NoticeChange::Add(Notice::RefreshFailed),
            ),
        }
    } else {
        (s, ScanEnd::NotShown, NoticeChange::Keep)
    }
}

/// A scan worker returned for `run`, with a result when `succeeded`.
pub open spec fn completed_step(s: Session, run: u64, succeeded: bool) -> (Session, ScanEnd, NoticeChange) {
    if s.active_scan_run != Some(run) {
        (s, ScanEnd::Stale, NoticeChange::Keep)
    } else {
        match s.scan_kind {
            None => (s, ScanEnd::NoConfiguration, NoticeChange::Replace(Notice::NoSavedConfiguration)),
            Some(kind) => {
                let was_cancelling = s.screen == Screen::Cancelling || s.cancel_requested;
                let s1 = Session {
                    scan_kind: None,
                    cancel_requested: false,
                    active_scan_run: None,
                    ..s
                };
                if was_cancelling {
                    let s2 = Session { running_scan_id: None, ..s1 };
                    match kind {
                        ScanKind::Initial => (
                            Session { active_scan_id: None, screen: Screen::Home, ..s2 },
                            ScanEnd::CancelledInitial,
                            NoticeChange::Keep,
                        ),
                        ScanKind::Refresh => (
                            Session { has_review: true, screen: Screen::Results, ..s2 },
                            ScanEnd::CancelledRefresh,
                            NoticeChange::Add(Notice::RefreshCancelled),
                        ),
                    }
                } else if succeeded {
                    match s1.running_scan_id {
                        Some(id) => (
                            Session { running_scan_id: None, ..s1 },
                            ScanEnd::Save(id),
                            NoticeChange::Keep,
                        ),
                        None => {
                            let (s2, d) = shown_after(s1);
                            (s2, d, NoticeChange::Keep)
                        },
                    }
                } else {
                    match (kind, s1.running_scan_id) {
                        (ScanKind::Initial, Some(id)) => (
                            Session { running_scan_id: None, ..s1 },
                            ScanEnd::RecordFailure(id),
                            NoticeChange::Keep,
                        ),
                        _ => failure_shown(s1, kind),
                    }
                }
            },
        }
    }
}

/// The result of `kind` was stored as scan `id`, or not.
pub open spec fn saved_step(s: Session, id: ScanId, kind: ScanKind, saved: bool) -> (Session, ScanEnd, NoticeChange) {
    let notice = if saved {
        NoticeChange::Keep
    } else {
        NoticeChange::Add(Notice::ResultsNotSaved)
    };
    if saved {
        let s1 = if s.screen == Screen::Scanning {
            Session { active_scan_id: Some(id), ..s }
        } else {
            s
        };
        let (s2, d) = shown_after(s1);
        (s2, d, notice)
    } else {
        match kind {
            ScanKind::Initial => {
                let (s2, d) = shown_after(Session { active_scan_id: None, ..s });
                (s2, d, notice)
            },
            ScanKind::Refresh => (
                Session { has_review: true, screen: Screen::Results, ..s },
                ScanEnd::ShowPrevious,
                notice,
            ),
        }
    }
}

/// A failed first scan `id` was recorded as failed, or not.
pub open spec fn failure_recorded_step(s: Session, id: ScanId, recorded: bool) -> (
    Session,
    ScanEnd,
    NoticeChange,
    NoticeChange,
) {
    let s1 = if s.active_scan_id == Some(id) {
        Session { active_scan_id: None, ..s }
    } else {
        s
    };
    let (s2, d, n) = failure_shown(s1, ScanKind::Initial);
    (
        s2,
        d,
        if recorded {
            NoticeChange::Keep
        } else {
            NoticeChange::Add(Notice::FailureNotRecorded)
        },
        n,
    )
}

/// What a request to cancel the running scan leads to.
#[derive(Clone, Copy, Debug, PartialEq, Eq, Structural)]
pub enum CancelDecision {
    Ignored,
    /// Raise the worker's cancellation flag.
    Cancelled,
    /// Raise the worker's cancellation flag and record scan `id` as
    /// cancelled.
    RecordCancelled(ScanId),
}

pub open spec fn cancel_step(s: Session) -> (Session, CancelDecision) {
    if s.screen != Screen::Scanning {
        (s, CancelDecision::Ignored)
    } else {
        let cancelled = s.running_scan_id;
        let initial = s.scan_kind == Some(ScanKind::Initial);
        let d = match cancelled {
            Some(id) => if initial {
                CancelDecision::RecordCancelled(id)
            } else {
                CancelDecision::Cancelled
            },
            None => CancelDecision::Cancelled,
        };
        let active = if initial && s.active_scan_id == cancelled {
            None
        } else {
            s.active_scan_id
        };
        (
            Session {
                cancel_requested: true,
                running_scan_id: None,
                active_scan_id: active,
                screen: Screen::Cancelling,
                ..s
            },
            d,
        )
    }
}

/// What a confirmed cleanup leads to.
#[derive(Clone, Copy, Debug, PartialEq, Eq, Structural)]
pub enum ConfirmDecision {
    Ignored,
    /// Plan the cleanup as run `run`, then call
    /// [`Session::cleanup_planned`].
    Plan { run: u64, permanent: bool },
}

pub open spec fn confirm_step(s: Session) -> (Session, ConfirmDecision, NoticeChange) {
    match s.screen {
        Screen::Confirm { permanent, acknowledged, .. } => if !s.has_review
            || s.active_cleanup_run is Some {
            (s, ConfirmDecision::Ignored, NoticeChange::Keep)
        } else if permanent && !acknowledged {
            (s, ConfirmDecision::Ignored, NoticeChange::Replace(Notice::AcknowledgePermanent))
        } else {
            let run = next_run(s.next_cleanup_run);
            (
                Session { next_cleanup_run: run, ..s },
                ConfirmDecision::Plan { run, permanent },
                NoticeChange::Keep,
            )
        },
        _ => (s, ConfirmDecision::Ignored, NoticeChange::Keep),
    }
}

/// Cleanup run `run` was planned with `planned` files, or its plan was
/// refused.
pub open spec fn planned_step(s: Session, run: u64, permanent: bool, planned: Option<usize>) -> (
    Session,
    NoticeChange,
) {
    match planned {
        Some(total) => (
            Session {
                active_cleanup_run: Some(run),
                screen: Screen::Cleaning { permanent, total },
                ..s
            },
            NoticeChange::Keep,
        ),
        None => (s, NoticeChange::Replace(Notice::CleanupNotStarted)),
    }
}

/// What a cleanup's report leads to.
#[derive(Clone, Copy, Debug, PartialEq, Eq, Structural)]
pub enum CleanupEnd {
    /// The report of an earlier run: nothing changes.
    Stale,
    /// The cleanup ran. When `reload`, the reviewed groups are reloaded
    /// after the history is updated.
    Finished { reload: bool },
    /// The cleanup was refused before removing anything.
    Refused,
}

pub open spec fn cleaned_step(
    s: Session,
    run: u64,
    scan_id: Option<ScanId>,
    permanent: bool,
    count: usize,
    bytes: u64,
) -> (Session, CleanupEnd) {
    if s.active_cleanup_run != Some(run) {
        (s, CleanupEnd::Stale)
    } else {
        let s1 = Session { active_cleanup_run: None, ..s };
        let reload = scan_id is Some && s.active_scan_id == scan_id;
        let s2 = if s1.screen is Cleaning {
            Session { screen: Screen::CleanupDone { permanent, count, bytes }, ..s1 }
        } else {
            s1
        };
        (s2, CleanupEnd::Finished { reload })
    }
}

pub open spec fn cleanup_refused_step(s: Session, run: u64) -> (Session, CleanupEnd, NoticeChange) {
    if s.active_cleanup_run != Some(run) {
        (s, CleanupEnd::Stale, NoticeChange::Keep)
    } else {
        (
            Session {
                active_cleanup_run: None,
                screen: if s.has_review {
                    Screen::Results
                } else {
                    Screen::Home
                },
                ..s
            },
            CleanupEnd::Refused,
            NoticeChange::Replace(Notice::CleanupRefused),
        )
    }
}

/// What loading a recorded scan came to.
#[derive(Clone, Copy, Debug, PartialEq, Eq, Structural)]
pub enum Reopened {
    Loaded(ScanId),
    OpenFailed,
    NotCompleted,
    LoadFailed,
}

pub open spec fn reopen_step(s: Session, outcome: Reopened) -> (Session, NoticeChange) {
    match outcome {
        Reopened::Loaded(id) => (
            Session { active_scan_id: Some(id), has_review: true, screen: Screen::Results, ..s },
            NoticeChange::Keep,
        ),
        Reopened::OpenFailed => (s, NoticeChange::Replace(Notice::OpenFailed)),
        Reopened::NotCompleted => (s, NoticeChange::Replace(Notice::NotCompleted)),
        Reopened::LoadFailed => (s, NoticeChange::Replace(Notice::LoadFailed)),
    }
}

/// A screen that is shown only while no worker runs.
pub open spec fn navigated(s: Session, to: Screen) -> Session {
    if busy(s) {
        s
    } else {
        Session { screen: to, ..s }
    }
}


fn shown_after_of(s: Session) -> (r: (Session, ScanEnd))
    ensures
        r == shown_after(s),
{
    if s.screen == Screen::Scanning {
        (Session { screen: Screen::Results, has_review: true, ..s }, ScanEnd::ShowNew)
    } else {
        (s, ScanEnd::NotShown)
    }
}

fn failure_shown_of(s: Session, kind: ScanKind) -> (r: (Session, ScanEnd, NoticeChange))
    ensures
        r == failure_shown(s, kind),
{
    if s.screen == Screen::Scanning {
        match kind {
            ScanKind::Initial => (
                Session { screen: Screen::Home, ..s },
                ScanEnd::FailedInitial,
                NoticeChange::Add(Notice::ScanFailed),
            ),
            ScanKind::Refresh => (
                Session { running_scan_id: None, has_review: true, screen: Screen::Results, ..s },
                ScanEnd::FailedRefresh,
                NoticeChange::Add(Notice::RefreshFailed),
            ),
        }
    } else {
        (s, ScanEnd::NotShown, NoticeChange::Keep)
    }
}

impl Session {
    /// A session that shows the home screen, with nothing running.
    pub fn new() -> (r: Self)
        ensures
            r.screen == Screen::Home,
            r.next_scan_run == 0,
            r.active_scan_run is None,
            r.running_scan_id is None,
            r.active_scan_id is None,
            r.scan_kind is None,
            !r.cancel_requested,
            r.next_cleanup_run == 0,
            r.active_cleanup_run is None,
            !r.has_review,
    {
        Session {
            screen: Screen::Home,
            next_scan_run: 0,
            active_scan_run: None,
            running_scan_id: None,
            active_scan_id: None,
            scan_kind: None,
            cancel_requested: false,
            next_cleanup_run: 0,
            active_cleanup_run: None,
            has_review: false,
        }
    }

    /// Whether a scan worker is running.
    pub fn scan_worker_active(&self) -> (r: bool)
        ensures
            r == self.active_scan_run is Some,
    {
        self.active_scan_run.is_some()
    }

    /// A request to start a first scan: refused while a scan worker runs,
    /// without folders, or with settings that do not read.
    pub fn start_scan(&self, has_paths: bool, settings_ok: bool) -> (r: (StartDecision, NoticeChange))
        ensures
            r == start_step(*self, has_paths, settings_ok),
    {
        if self.active_scan_run.is_some() {
            (StartDecision::Refused, NoticeChange::Replace(Notice::ScanAlreadyRunning))
        } else if !has_paths {
            (StartDecision::Refused, NoticeChange::Replace(Notice::NoFolders))
        } else if !settings_ok {
            (StartDecision::Refused, NoticeChange::Replace(Notice::Settings))
        } else {
            (StartDecision::Begin, NoticeChange::Keep)
        }
    }

    /// Starts the worker of a new scan run; returns the run's number.
    pub fn begin_scan(&mut self, kind: ScanKind, created: Created) -> (r: (u64, NoticeChange))
        ensures
            (*final(self), r.0, r.1) == begin_step(*old(self), kind, created),
    {
        let run = next_run_of(self.next_scan_run);
        let active = match created {
            Created::Saved(id) => Some(id),
            Created::NotSaved => None,
            Created::NotNeeded => self.active_scan_id,
        };
        self.screen = Screen::Scanning;
        self.next_scan_run = run;
        self.active_scan_run = Some(run);
        self.running_scan_id = active;
        self.active_scan_id = active;
        self.scan_kind = Some(kind);
        self.cancel_requested = false;
        let notice = match created {
            Created::NotSaved => NoticeChange::Replace(Notice::HistoryNotSaved),
            _ => NoticeChange::Clear,
        };
        (run, notice)
    }

    /// A request to refresh the shown results with the form's settings.
    pub fn refresh(&self, settings_ok: bool) -> (r: RefreshDecision)
        ensures
            r == refresh_step(*self, settings_ok),
    {
        if self.active_scan_run.is_some() || self.active_cleanup_run.is_some() || self.screen
            != Screen::Results {
            RefreshDecision::Ignored
        } else if !settings_ok {
            RefreshDecision::SettingsRefused
        } else {
            RefreshDecision::Begin
        }
    }

    /// The scan worker of run `run` returned, with a result when
    /// `succeeded`.
    pub fn scan_completed(&mut self, run: u64, succeeded: bool) -> (r: (ScanEnd, NoticeChange))
        ensures
            (*final(self), r.0, r.1) == completed_step(*old(self), run, succeeded),
    {
        if self.active_scan_run != Some(run) {
            return (ScanEnd::Stale, NoticeChange::Keep);
        }
        let kind = match self.scan_kind {
            None => {
                return (ScanEnd::NoConfiguration, NoticeChange::Replace(Notice::NoSavedConfiguration));
            },
            Some(k) => k,
        };
        let was_cancelling = self.screen == Screen::Cancelling || self.cancel_requested;
        self.scan_kind = None;
        self.cancel_requested = false;
        self.active_scan_run = None;
        if was_cancelling {
            self.running_scan_id = None;
            match kind {
                ScanKind::Initial => {
                    self.active_scan_id = None;
                    self.screen = Screen::Home;
                    (ScanEnd::CancelledInitial, NoticeChange::Keep)
                },
                ScanKind::Refresh => {
                    self.has_review = true;
                    self.screen = Screen::Results;
                    (ScanEnd::CancelledRefresh, NoticeChange::Add(Notice::RefreshCancelled))
                },
            }
        } else if succeeded {
            match self.running_scan_id {
                Some(id) => {
                    self.running_scan_id = None;
                    (ScanEnd::Save(id), NoticeChange::Keep)
                },
                None => {
                    let (s2, d) = shown_after_of(*self);
                    *self = s2;
                    (d, NoticeChange::Keep)
                },
            }
        } else {
            match (kind, self.running_scan_id) {
                (ScanKind::Initial, Some(id)) => {
                    self.running_scan_id = None;
                    (ScanEnd::RecordFailure(id), NoticeChange::Keep)
                },
                _ => {
                    let (s2, d, n) = failure_shown_of(*self, kind);
                    *self = s2;
                    (d, n)
                },
            }
        }
    }

    /// The result of a scan of `kind` was stored as scan `id`, or not.
    pub fn results_saved(&mut self, id: ScanId, kind: ScanKind, saved: bool) -> (r: (
        ScanEnd,
        NoticeChange,
    ))
        ensures
            (*final(self), r.0, r.1) == saved_step(*old(self), id, kind, saved),
    {
        let notice = if saved {
            NoticeChange::Keep
        } else {
            NoticeChange::Add(Notice::ResultsNotSaved)
        };
        if saved {
            if self.screen == Screen::Scanning {
                self.active_scan_id = Some(id);
            }
            let (s2, d) = shown_after_of(*self);
            *self = s2;
            (d, notice)
        } else {
            match kind {
                ScanKind::Initial => {
                    self.active_scan_id = None;
                    let (s2, d) = shown_after_of(*self);
                    *self = s2;
                    (d, notice)
                },
                ScanKind::Refresh => {
                    self.has_review = true;
                    self.screen = Screen::Results;
                    (ScanEnd::ShowPrevious, notice)
                },
            }
        }
    }

    /// A failed first scan `id` was recorded as failed, or not; returns what
    /// to show and the two notice changes, in order.
    pub fn failure_recorded(&mut self, id: ScanId, recorded: bool) -> (r: (
        ScanEnd,
        NoticeChange,
        NoticeChange,
    ))
        ensures
            (*final(self), r.0, r.1, r.2) == failure_recorded_step(*old(self), id, recorded),
    {
        if self.active_scan_id == Some(id) {
            self.active_scan_id = None;
        }
        let (s2, d, n) = failure_shown_of(*self, ScanKind::Initial);
        *self = s2;
        let first = if recorded {
            NoticeChange::Keep
        } else {
            NoticeChange::Add(Notice::FailureNotRecorded)
        };
        (d, first, n)
    }

    /// A request to cancel the running scan. The worker is left to return
    /// on its own: until it does, no other scan starts.
    pub fn cancel_scan(&mut self) -> (r: CancelDecision)
        ensures
            (*final(self), r) == cancel_step(*old(self)),
    {
        if self.screen != Screen::Scanning {
            return CancelDecision::Ignored;
        }
        let cancelled = self.running_scan_id;
        let initial = self.scan_kind == Some(ScanKind::Initial);
        let d = match cancelled {
            Some(id) => if initial {
                CancelDecision::RecordCancelled(id)
            } else {
                CancelDecision::Cancelled
            },
            None => CancelDecision::Cancelled,
        };
        if initial && self.active_scan_id == cancelled {
            self.active_scan_id = None;
        }
        self.cancel_requested = true;
        self.running_scan_id = None;
        self.screen = Screen::Cancelling;
        d
    }

    /// Asks for confirmation of a cleanup of `count` files holding `bytes`.
    pub fn ask_cleanup(&mut self, permanent: bool, count: usize, bytes: u64)
        ensures
            *final(self) == if old(self).screen == Screen::Results {
                Session {
                    screen: Screen::Confirm { permanent, count, bytes, acknowledged: false },
                    ..*old(self)
                }
            } else {
                *old(self)
            },
    {
        if self.screen == Screen::Results {
            self.screen = Screen::Confirm { permanent, count, bytes, acknowledged: false };
        }
    }

    /// Leaves the confirmation: back to the reviewed results, or home.
    pub fn cancel_confirm(&mut self)
        ensures
            *final(self) == (Session {
                screen: if old(self).has_review {
                    Screen::Results
                } else {
                    Screen::Home
                },
                ..*old(self)
            }),
    {
        self.screen = if self.has_review {
            Screen::Results
        } else {
            Screen::Home
        };
    }

    /// Ticks or clears the acknowledgement of a permanent deletion.
    pub fn acknowledge(&mut self, value: bool)
        ensures
            *final(self) == match old(self).screen {
                Screen::Confirm { permanent, count, bytes, .. } => Session {
                    screen: Screen::Confirm { permanent, count, bytes, acknowledged: value },
                    ..*old(self)
                },
                _ => *old(self),
            },
    {
        match self.screen {
            Screen::Confirm { permanent, count, bytes, .. } => {
                self.screen = Screen::Confirm { permanent, count, bytes, acknowledged: value };
            },
            _ => {},
        }
    }

    /// A confirmed cleanup: refused while another runs, and a permanent
    /// deletion is refused until acknowledged.
    pub fn confirm_cleanup(&mut self) -> (r: (ConfirmDecision, NoticeChange))
        ensures
            (*final(self), r.0, r.1) == confirm_step(*old(self)),
    {
        match self.screen {
            Screen::Confirm { permanent, acknowledged, .. } => {
                if !self.has_review || self.active_cleanup_run.is_some() {
                    (ConfirmDecision::Ignored, NoticeChange::Keep)
                } else if permanent && !acknowledged {
                    (ConfirmDecision::Ignored, NoticeChange::Replace(Notice::AcknowledgePermanent))
                } else {
                    let run = next_run_of(self.next_cleanup_run);
                    self.next_cleanup_run = run;
                    (ConfirmDecision::Plan { run, permanent }, NoticeChange::Keep)
                }
            },
            _ => (ConfirmDecision::Ignored, NoticeChange::Keep),
        }
    }

    /// Cleanup run `run` was planned with `planned` files, or its plan was
    /// refused (`None`).
    pub fn cleanup_planned(&mut self, run: u64, permanent: bool, planned: Option<usize>) -> (r:
        NoticeChange)
        ensures
            (*final(self), r) == planned_step(*old(self), run, permanent, planned),
    {
        match planned {
            Some(total) => {
                self.active_cleanup_run = Some(run);
                self.screen = Screen::Cleaning { permanent, total };
                NoticeChange::Keep
            },
            None => NoticeChange::Replace(Notice::CleanupNotStarted),
        }
    }

    /// Cleanup run `run`, started while scan `scan_id` was reviewed,
    /// removed `count` files holding `bytes`.
    pub fn cleanup_finished(
        &mut self,
        run: u64,
        scan_id: Option<ScanId>,
        permanent: bool,
        count: usize,
        bytes: u64,
    ) -> (r: CleanupEnd)
        ensures
            (*final(self), r) == cleaned_step(*old(self), run, scan_id, permanent, count, bytes),
    {
        if self.active_cleanup_run != Some(run) {
            return CleanupEnd::Stale;
        }
        let reload = scan_id.is_some() && self.active_scan_id == scan_id;
        self.active_cleanup_run = None;
        if let Screen::Cleaning { .. } = self.screen {
            self.screen = Screen::CleanupDone { permanent, count, bytes };
        }
        CleanupEnd::Finished { reload }
    }

    /// Cleanup run `run` was refused before it removed anything.
    pub fn cleanup_refused(&mut self, run: u64) -> (r: (CleanupEnd, NoticeChange))
        ensures
            (*final(self), r.0, r.1) == cleanup_refused_step(*old(self), run),
    {
        if self.active_cleanup_run != Some(run) {
            return (CleanupEnd::Stale, NoticeChange::Keep);
        }
        self.active_cleanup_run = None;
        self.screen = if self.has_review {
            Screen::Results
        } else {
            Screen::Home
        };
        (CleanupEnd::Refused, NoticeChange::Replace(Notice::CleanupRefused))
    }

    /// Whether a recorded scan may be opened now: not while a worker runs.
    pub fn may_reopen(&self) -> (r: bool)
        ensures
            r == !busy(*self),
    {
        self.active_scan_run.is_none() && self.active_cleanup_run.is_none()
    }

    /// Opening a recorded scan came to `outcome`.
    pub fn reopened(&mut self, outcome: Reopened) -> (r: NoticeChange)
        ensures
            (*final(self), r) == reopen_step(*old(self), outcome),
    {
        match outcome {
            Reopened::Loaded(id) => {
                self.active_scan_id = Some(id);
                self.has_review = true;
                self.screen = Screen::Results;
                NoticeChange::Keep
            },
            Reopened::OpenFailed => NoticeChange::Replace(Notice::OpenFailed),
            Reopened::NotCompleted => NoticeChange::Replace(Notice::NotCompleted),
            Reopened::LoadFailed => NoticeChange::Replace(Notice::LoadFailed),
        }
    }

    /// Shows the home screen, unless a worker runs.
    pub fn home(&mut self)
        ensures
            *final(self) == navigated(*old(self), Screen::Home),
    {
        if self.active_scan_run.is_none() && self.active_cleanup_run.is_none() {
            self.screen = Screen::Home;
        }
    }

    /// Shows the scan history, unless a worker runs.
    pub fn open_history(&mut self)
        ensures
            *final(self) == navigated(*old(self), Screen::History),
    {
        if self.active_scan_run.is_none() && self.active_cleanup_run.is_none() {
            self.screen = Screen::History;
        }
    }
}

/// Whether a list of scan roots already names `path`.
pub open spec fn has_path(paths: Seq<ScanPath>, path: Seq<u8>) -> bool {
    exists|i: int| 0 <= i < paths.len() && path_components(#[trigger] paths[i].path@) == path_components(path)
}

/// Adds a picked folder as a scan root that is not preferred, unless it is
/// one already.
pub fn add_path(paths: &mut Vec<ScanPath>, path: Vec<u8>)
    ensures
        has_path(old(paths)@, path@) ==> final(paths)@ == old(paths)@,
        !has_path(old(paths)@, path@) ==> final(paths)@ == old(paths)@.push(
            ScanPath { path, preferred: false },
        ),
{
    let mut i: usize = 0;
    while i < paths.len()
        invariant
            0 <= i <= paths@.len(),
            paths@ == old(paths)@,
            forall|k: int| 0 <= k < i ==> path_components(#[trigger] paths@[k].path@) != path_components(path@),
        decreases paths@.len() - i,
    {
        if same_path(paths[i].path.as_slice(), path.as_slice()) {
            return;
        }
        i = i + 1;
    }
    paths.push(ScanPath { path, preferred: false });
}

/// Flips whether the root at `index` is preferred; an index past the end
/// changes nothing.
pub fn toggle_preferred(paths: &mut Vec<ScanPath>, index: usize)
    ensures
        index < old(paths)@.len() ==> final(paths)@ == old(paths)@.update(
            index as int,
            ScanPath { preferred: !old(paths)@[index as int].preferred, ..old(paths)@[index as int] },
        ),
        index >= old(paths)@.len() ==> final(paths)@ == old(paths)@,
{
    if index < paths.len() {
        let flipped = !paths[index].preferred;
        let mut p = paths.remove(index);
        p.preferred = flipped;
        paths.insert(index, p);
        proof {
            assert(paths@ =~= old(paths)@.update(
                index as int,
                ScanPath { preferred: !old(paths)@[index as int].preferred, ..old(paths)@[index as int] },
            ));
        }
    }
}

// ---------------------------------------------------------------------------
// Laws of the session.

/// A report of a run that is not the current one changes nothing: neither a
/// scan worker's nor a cleanup's.
pub proof fn law_stale_reports_change_nothing(
    s: Session,
    run: u64,
    succeeded: bool,
    scan_id: Option<ScanId>,
    permanent: bool,
    count: usize,
    bytes: u64,
)
    ensures
        s.active_scan_run != Some(run) ==> completed_step(s, run, succeeded) == (
            s,
            ScanEnd::Stale,
            NoticeChange::Keep,
        ),
        s.active_cleanup_run != Some(run) ==> cleaned_step(s, run, scan_id, permanent, count, bytes)
            == (s, CleanupEnd::Stale),
        s.active_cleanup_run != Some(run) ==> cleanup_refused_step(s, run) == (
            s,
            CleanupEnd::Stale,
            NoticeChange::Keep,
        ),
{
}

/// Cancelling a scan does not free the scanner: until its worker returns,
/// no scan or refresh starts and the screen cannot be left.
pub proof fn law_cancel_waits_for_the_worker(
    s: Session,
    has_paths: bool,
    settings_ok: bool,
    to: Screen,
)
    requires
        s.screen == Screen::Scanning,
        s.active_scan_run is Some,
    ensures
        cancel_step(s).0.active_scan_run == s.active_scan_run,
        cancel_step(s).0.screen == Screen::Cancelling,
        start_step(cancel_step(s).0, has_paths, settings_ok).0 == StartDecision::Refused,
        refresh_step(cancel_step(s).0, settings_ok) == RefreshDecision::Ignored,
        navigated(cancel_step(s).0, to) == cancel_step(s).0,
{
}

/// The result of a cancelled scan is never stored or shown: when its worker
/// returns, a first scan goes home and a refresh shows again the results it
/// would have replaced.
pub proof fn law_cancelled_scan_is_discarded(s: Session, run: u64, succeeded: bool)
    requires
        s.screen == Screen::Scanning,
        s.active_scan_run == Some(run),
        s.scan_kind is Some,
    ensures
        ({
            let (t, d, _) = completed_step(cancel_step(s).0, run, succeeded);
            &&& t.active_scan_run is None
            &&& t.running_scan_id is None
            &&& s.scan_kind == Some(ScanKind::Initial) ==> d == ScanEnd::CancelledInitial
                && t.screen == Screen::Home
            &&& s.scan_kind == Some(ScanKind::Refresh) ==> d == ScanEnd::CancelledRefresh
                && t.screen == Screen::Results && t.has_review
        }),
{
}

/// A refresh that fails, or whose result cannot be stored, shows again the
/// results it would have replaced.
pub proof fn law_failed_refresh_keeps_the_results(s: Session, run: u64, id: ScanId)
    requires
        s.screen == Screen::Scanning,
        s.active_scan_run == Some(run),
        s.scan_kind == Some(ScanKind::Refresh),
        !s.cancel_requested,
    ensures
        completed_step(s, run, false).1 == ScanEnd::FailedRefresh,
        completed_step(s, run, false).0.screen == Screen::Results,
        completed_step(s, run, false).0.has_review,
        saved_step(s, id, ScanKind::Refresh, false).1 == ScanEnd::ShowPrevious,
        saved_step(s, id, ScanKind::Refresh, false).0.screen == Screen::Results,
{
}

/// One cleanup at a time, and a permanent deletion only once acknowledged.
pub proof fn law_cleanup_needs_a_free_and_acknowledged_run(s: Session)
    ensures
        s.active_cleanup_run is Some ==> confirm_step(s).0 == s && confirm_step(s).1
            == ConfirmDecision::Ignored,
        s.screen matches Screen::Confirm { permanent, acknowledged, .. } && permanent
            && !acknowledged ==> confirm_step(s).1 == ConfirmDecision::Ignored,
        confirm_step(s).1 matches ConfirmDecision::Plan { run, permanent } ==> run == next_run(
            s.next_cleanup_run,
        ) && run == confirm_step(s).0.next_cleanup_run,
{
}

} // verus!
