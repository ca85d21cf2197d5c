//! The state behind the screens: the settings form of a refresh, the rows
//! of the scan history, the progress of a running scan, and paging through
//! the duplicate groups.
use crate::models::{lemma_sum_groups_prefix, sum_groups, DuplicateGroup, Timestamp};
use crate::scanner::ScanEvent;
use crate::sizes::{
    is_space, law_written_size_reads_back, parse_size_input, size_input_message,
    size_input_outcome, space_end, written_exactly, fits_double, SizeInputError,
};
use crate::storage::{Scan, ScanId, ScanSettings, ScanStatus};
use crate::text::{
    chars_of, decimal_chars, format_scan_time, push_chars, push_decimal, scan_time_text,
    size_input_value, size_text,
};
use vstd::prelude::*;

verus! {

/// Duplicate groups shown on one page of results.
pub const GROUPS_PER_PAGE: usize = 12;

/// The first and one-past-the-last group shown on page `page` of `total`
/// groups.
pub open spec fn page_bounds(page: nat, total: nat) -> (nat, nat) {
    let start = page * 12;
    let end = if start + 12 < total {
        start + 12
    } else {
        total
    };
    (start, end)
}

/// The range of groups on a page: at most [`GROUPS_PER_PAGE`] of them.
pub fn page_range(page: usize, total: usize) -> (r: (usize, usize))
    requires
        page * 12 <= usize::MAX - 12,
    ensures
        r.0 == page_bounds(page as nat, total as nat).0,
        r.1 == page_bounds(page as nat, total as nat).1,
        r.0 <= total ==> r.0 <= r.1 && r.1 - r.0 <= GROUPS_PER_PAGE,
{
    let start = page * GROUPS_PER_PAGE;
    let end = if start + GROUPS_PER_PAGE < total {
        start + GROUPS_PER_PAGE
    } else {
        total
    };
    (start, end)
}

/// The last page of `total` groups (the first when there are none).
pub open spec fn last_page(total: nat) -> nat {
    if total == 0 {
        0
    } else {
        ((total - 1) as nat) / 12
    }
}

/// The page after `page`, staying on the last one.
pub fn next_page(page: usize, total: usize) -> (r: usize)
    ensures
        r as int == if page + 1 < last_page(total as nat) {
            page + 1
        } else {
            last_page(total as nat) as int
        },
{
    let last = if total == 0 {
        0
    } else {
        (total - 1) / GROUPS_PER_PAGE
    };
    if page < last && page + 1 < last {
        page + 1
    } else {
        last
    }
}

/// A page kept within the pages that `total` groups fill.
pub fn clamp_page(page: usize, total: usize) -> (r: usize)
    ensures
        r == if page < last_page(total as nat) {
            page as nat
        } else {
            last_page(total as nat)
        },
{
    let last = if total == 0 {
        0
    } else {
        (total - 1) / GROUPS_PER_PAGE
    };
    if page < last {
        page
    } else {
        last
    }
}

/// The number of pages that `total` groups fill (at least one is shown).
pub fn page_count(total: usize) -> (r: usize)
    ensures
        r == if total == 0 {
            1
        } else {
            (total - 1) / 12 + 1
        },
{
    if total == 0 {
        1
    } else {
        (total - 1) / GROUPS_PER_PAGE + 1
    }
}

/// Bytes the copies of a group take beyond the one kept.
pub open spec fn group_spare_bytes(g: DuplicateGroup) -> nat {
    ((g.files@.len() - 1) * g.file_size) as nat
}

/// The bytes that removing every copy but one of each group would recover.
pub fn reclaimable_bytes(groups: &[DuplicateGroup]) -> (r: u64)
    requires
        forall|i: int| 0 <= i < groups@.len() ==> (#[trigger] groups@[i]).files@.len() >= 1,
        sum_groups(groups@, |g: DuplicateGroup| group_spare_bytes(g)) <= u64::MAX,
    ensures
        r == sum_groups(groups@, |g: DuplicateGroup| group_spare_bytes(g)),
{
    let ghost f = |g: DuplicateGroup| group_spare_bytes(g);
    let mut total: u64 = 0;
    let mut i: usize = 0;
    while i < groups.len()
        invariant
            0 <= i <= groups@.len(),
            forall|k: int| 0 <= k < groups@.len() ==> (#[trigger] groups@[k]).files@.len() >= 1,
            f == (|g: DuplicateGroup| group_spare_bytes(g)),
            sum_groups(groups@, f) <= u64::MAX,
            total == sum_groups(groups@.take(i as int), f),
        decreases groups@.len() - i,
    {
        proof {
            lemma_sum_groups_prefix(groups@, f, i as int);
        }
        let spare = (groups[i].files.len() - 1) as u64;
        proof {
            let g = groups@[i as int];
            assert((g.files@.len() - 1) * g.file_size >= 0) by (nonlinear_arith)
                requires
                    g.files@.len() >= 1,
            ;
            assert(f(g) == spare * g.file_size);
        }
        total = total + spare * groups[i].file_size;
        i = i + 1;
    }
    assert(groups@.take(groups@.len() as int) =~= groups@);
    total
}

/// The text of a size field: the size written back, or nothing.
pub open spec fn size_field_text(size: Option<u64>) -> Seq<char> {
    match size {
        Some(b) => size_text(b as nat),
        None => Seq::empty(),
    }
}

/// The settings a refresh scan runs with, as the form holds them.
#[derive(Clone, Debug)]
pub struct RefreshSettings {
    pub min_size: String,
    pub max_size: String,
    pub cache: bool,
    pub expanded: bool,
    pub error: Option<String>,
    pub legacy_unrecorded: bool,
}

/// The settings that a form's fields stand for, or the message that says
/// why they were refused.
pub open spec fn stored_settings(min: Seq<char>, max: Seq<char>, cache: bool) -> Result<
    ScanSettings,
    Seq<char>,
> {
    match size_input_outcome(min) {
        Err(e) => Err(size_input_message("Minimum file size"@, e)),
        Ok(lo) => match size_input_outcome(max) {
            Err(e) => Err(size_input_message("Maximum file size"@, e)),
            Ok(hi) => if lo matches Some(a) && hi matches Some(b) && a > b {
                Err("Minimum file size cannot exceed maximum file size."@)
            } else {
                Ok(ScanSettings { min_size: lo, max_size: hi, cache })
            },
        },
    }
}

/// Where the white space at the end of `s[..j]` begins.
pub open spec fn space_start(s: Seq<char>, j: int) -> int
    decreases j,
{
    if 0 < j <= s.len() && is_space(s[j - 1]) {
        space_start(s, j - 1)
    } else {
        j
    }
}

/// `s` without white space at either end.
pub open spec fn trimmed(s: Seq<char>) -> Seq<char> {
    let a = space_end(s, 0);
    if a >= s.len() {
        Seq::empty()
    } else {
        s.subrange(a, space_start(s, s.len() as int))
    }
}

/// A field as the summary shows it: trimmed, or `none` when blank.
pub open spec fn shown_field(s: Seq<char>) -> Seq<char> {
    if trimmed(s).len() == 0 {
        "none"@
    } else {
        trimmed(s)
    }
}

pub open spec fn settings_summary(min: Seq<char>, max: Seq<char>, cache: bool) -> Seq<char> {
    "Min "@ + shown_field(min) + " · Max "@ + shown_field(max) + " · Cache "@ + if cache {
        "on"@
    } else {
        "off"@
    }
}

proof fn lemma_space_end(s: Seq<char>, i: int)
    requires
        0 <= i <= s.len(),
    ensures
        i <= space_end(s, i) <= s.len(),
        space_end(s, i) < s.len() ==> !is_space(s[space_end(s, i)]),
    decreases s.len() - i,
{
    if i < s.len() && is_space(s[i]) {
        lemma_space_end(s, i + 1);
    }
}

fn trim_chars(s: &str) -> (r: Vec<char>)
    ensures
        r@ == trimmed(s@),
{
    let c = chars_of(s);
    let len = c.len();
    let mut a: usize = 0;
    while a < len && crate::sizes::space(c[a])
        invariant
            a <= len == c@.len(),
            c@ == s@,
            space_end(s@, a as int) == space_end(s@, 0),
        decreases len - a,
    {
        a = a + 1;
    }
    if a == len {
        return Vec::new();
    }
    proof {
        lemma_space_end(s@, 0);
    }
    let mut j = len;
    while j > a + 1 && crate::sizes::space(c[j - 1])
        invariant
            a < j <= len == c@.len(),
            c@ == s@,
            space_start(s@, j as int) == space_start(s@, len as int),
        decreases j,
    {
        j = j - 1;
    }
    assert(!is_space(s@[a as int]));
    assert(space_start(s@, j as int) == j as int);
    let mut out: Vec<char> = Vec::new();
    let mut i = a;
    while i < j
        invariant
            a <= i <= j <= len == c@.len(),
            out@ == c@.subrange(a as int, i as int),
        decreases j - i,
    {
        out.push(c[i]);
        i = i + 1;
        assert(out@ =~= c@.subrange(a as int, i as int));
    }
    out
}

fn push_field(out: &mut String, field: &str)
    ensures
        final(out)@ == old(out)@ + shown_field(field@),
{
    let t = trim_chars(field);
    if t.len() == 0 {
        out.append("none");
    } else {
        push_chars(out, t.as_slice());
    }
}

impl RefreshSettings {
    /// The form for the settings a scan was run with; `recorded` is false
    /// for a scan from before settings were recorded.
    pub fn from_scan(settings: ScanSettings, recorded: bool) -> (r: Self)
        ensures
            r.min_size@ == size_field_text(settings.min_size),
            r.max_size@ == size_field_text(settings.max_size),
            r.cache == settings.cache,
            !r.expanded,
            r.error is None,
            r.legacy_unrecorded == !recorded,
    {
        let min_size = match settings.min_size {
            Some(b) => size_input_value(b),
            None => String::new(),
        };
        let max_size = match settings.max_size {
            Some(b) => size_input_value(b),
            None => String::new(),
        };
        RefreshSettings {
            min_size,
            max_size,
            cache: settings.cache,
            expanded: false,
            error: None,
            legacy_unrecorded: !recorded,
        }
    }

    /// The settings the form stands for, or why they are refused.
    pub fn stored(&self) -> (r: Result<ScanSettings, String>)
        ensures
            r is Ok <==> stored_settings(self.min_size@, self.max_size@, self.cache) is Ok,
            r matches Ok(v) ==> stored_settings(self.min_size@, self.max_size@, self.cache) == Ok::<
                ScanSettings,
                Seq<char>,
            >(v),
            r matches Err(m) ==> stored_settings(self.min_size@, self.max_size@, self.cache)
                == Err::<ScanSettings, Seq<char>>(m@),
    {
        let min_size = match parse_size_input(self.min_size.as_str(), "Minimum file size") {
            Ok(v) => v,
            Err(m) => {
                return Err(m);
            },
        };
        let max_size = match parse_size_input(self.max_size.as_str(), "Maximum file size") {
            Ok(v) => v,
            Err(m) => {
                return Err(m);
            },
        };
        if let (Some(lo), Some(hi)) = (min_size, max_size) {
            if lo > hi {
                return Err(String::from_str("Minimum file size cannot exceed maximum file size."));
            }
        }
        Ok(ScanSettings { min_size, max_size, cache: self.cache })
    }

    /// One line that sums the settings up, such as
    /// `Min 1 MB · Max none · Cache on`.
    pub fn summary(&self) -> (r: String)
        ensures
            r@ == settings_summary(self.min_size@, self.max_size@, self.cache),
    {
        let mut out = String::from_str("Min ");
        push_field(&mut out, self.min_size.as_str());
        out.append(" · Max ");
        push_field(&mut out, self.max_size.as_str());
        out.append(" · Cache ");
        if self.cache {
            out.append("on");
        } else {
            out.append("off");
        }
        out
    }
}

/// The form shown for the settings of a scan reads back as those settings,
/// when each size is written exactly and a 64-bit float holds it (see
/// [`written_exactly`] and [`fits_double`]) and the minimum does not exceed
/// the maximum.
pub proof fn law_refresh_form_reads_back(settings: ScanSettings)
    requires
        settings.min_size matches Some(a) ==> written_exactly(a as nat) && fits_double(a as nat),
        settings.max_size matches Some(b) ==> written_exactly(b as nat) && fits_double(b as nat),
        !(settings.min_size matches Some(a) && settings.max_size matches Some(b) && a > b),
    ensures
        stored_settings(
            size_field_text(settings.min_size),
            size_field_text(settings.max_size),
            settings.cache,
        ) == Ok::<ScanSettings, Seq<char>>(settings),
{
    assert(size_input_outcome(Seq::<char>::empty()) == Ok::<Option<u64>, SizeInputError>(None));
    if let Some(a) = settings.min_size {
        law_written_size_reads_back(a);
    }
    if let Some(b) = settings.max_size {
        law_written_size_reads_back(b);
    }
}

/// One row of the scan history.
#[derive(Clone, Debug)]
pub struct HistoryItem {
    pub id: ScanId,
    pub name: String,
    pub date: String,
    pub status: ScanStatus,
    pub groups: usize,
    pub bytes: u64,
}

/// The time a history row is dated by: when the scan finished, else when it
/// started.
pub open spec fn dated_by(scan: Scan) -> Timestamp {
    match scan.finished_at {
        Some(t) => t,
        None => scan.started_at,
    }
}

impl HistoryItem {
    /// The history row of a recorded scan.
    pub fn from_scan(scan: &Scan) -> (r: Self)
        ensures
            r.id == scan.id,
            r.name@ == match scan.name {
                Some(n) => n@,
                None => "Untitled scan"@,
            },
            r.date@ == scan_time_text(dated_by(*scan)),
            r.status == scan.status,
            r.groups == match scan.summary {
                Some(s) => s.duplicate_groups as usize,
                None => 0usize,
            },
            r.bytes == match scan.summary {
                Some(s) => s.recoverable_bytes,
                None => 0u64,
            },
    {
        let name = match &scan.name {
            Some(n) => n.clone(),
            None => String::from_str("Untitled scan"),
        };
        let when = match scan.finished_at {
            Some(t) => t,
            None => scan.started_at,
        };
        let (groups, bytes) = match &scan.summary {
            Some(s) => (s.duplicate_groups as usize, s.recoverable_bytes),
            None => (0, 0),
        };
        HistoryItem {
            id: scan.id,
            name,
            date: format_scan_time(when),
            status: scan.status,
            groups,
            bytes,
        }
    }
}

/// The history rows of recorded scans, in the same order.
pub fn history_items(scans: &[Scan]) -> (r: Vec<HistoryItem>)
    ensures
        r@.len() == scans@.len(),
        forall|i: int|
            0 <= i < scans@.len() ==> {
                let h = #[trigger] r@[i];
                let s = scans@[i];
                &&& h.id == s.id
                &&& h.name@ == match s.name {
                    Some(n) => n@,
                    None => "Untitled scan"@,
                }
                &&& h.date@ == scan_time_text(dated_by(s))
                &&& h.status == s.status
                &&& h.groups == match s.summary {
                    Some(x) => x.duplicate_groups as usize,
                    None => 0usize,
                }
                &&& h.bytes == match s.summary {
                    Some(x) => x.recoverable_bytes,
                    None => 0u64,
                }
            },
{
    let mut out: Vec<HistoryItem> = Vec::new();
    let mut i: usize = 0;
    while i < scans.len()
        invariant
            0 <= i <= scans@.len(),
            out@.len() == i,
            forall|k: int|
                0 <= k < i ==> {
                    let h = #[trigger] out@[k];
                    let s = scans@[k];
                    &&& h.id == s.id
                    &&& h.name@ == match s.name {
                        Some(n) => n@,
                        None => "Untitled scan"@,
                    }
                    &&& h.date@ == scan_time_text(dated_by(s))
                    &&& h.status == s.status
                    &&& h.groups == match s.summary {
                        Some(x) => x.duplicate_groups as usize,
                        None => 0usize,
                    }
                    &&& h.bytes == match s.summary {
                        Some(x) => x.recoverable_bytes,
                        None => 0u64,
                    }
                },
        decreases scans@.len() - i,
    {
        let item = HistoryItem::from_scan(&scans[i]);
        out.push(item);
        i = i + 1;
    }
    out
}

/// What the scanning screen shows: the scanner's last reported phase and
/// counts, never an estimate.
#[derive(Clone, Debug, PartialEq, Eq)]
pub struct ScanProgress {
    pub phase: String,
    pub processed: u64,
    pub total: Option<u64>,
}

impl Default for ScanProgress {
    fn default() -> (r: Self)
        ensures
            r.phase@ == "Starting scan"@,
            r.processed == 0,
            r.total is None,
    {
        ScanProgress { phase: String::from_str("Starting scan"), processed: 0, total: None }
    }
}

/// The progress after an event of the scanner.
pub open spec fn progress_after(
    phase: Seq<char>,
    processed: u64,
    total: Option<u64>,
    event: ScanEvent,
) -> (Seq<char>, u64, Option<u64>) {
    match event {
        ScanEvent::Started => ("Starting scan"@, 0, None),
        ScanEvent::PhaseStarted { name, total: t } => (name@, 0, t),
        ScanEvent::Progress { processed: p, total: t } => (
            phase,
            if p > processed {
                p
            } else {
                processed
            },
            if t is Some {
                t
            } else {
                total
            },
        ),
        ScanEvent::FilesDiscovered(count) => (
            "Found "@ + decimal_chars(count as nat) + " files in duplicate groups"@,
            count,
            None,
        ),
        _ => (phase, processed, total),
    }
}

impl ScanProgress {
    /// Takes in an event of the scanner. A progress count never goes back:
    /// workers may deliver their updates out of order.
    pub fn apply(&mut self, event: &ScanEvent)
        ensures
            ({
                let (p, n, t) = progress_after(old(self).phase@, old(self).processed, old(self).total, *event);
                &&& final(self).phase@ == p
                &&& final(self).processed == n
                &&& final(self).total == t
            }),
    {
        match event {
            ScanEvent::Started => {
                self.phase = String::from_str("Starting scan");
                self.processed = 0;
                self.total = None;
            },
            ScanEvent::PhaseStarted { name, total } => {
                self.phase = name.clone();
                self.processed = 0;
                self.total = *total;
            },
            ScanEvent::Progress { processed, total } => {
                if *processed > self.processed {
                    self.processed = *processed;
                }
                if total.is_some() {
                    self.total = *total;
                }
            },
            ScanEvent::FilesDiscovered(count) => {
                let mut phase = String::from_str("Found ");
                push_decimal(&mut phase, *count as u128);
                phase.append(" files in duplicate groups");
                self.phase = phase;
                self.processed = *count;
                self.total = None;
            },
            _ => {},
        }
    }
}

} // verus!
