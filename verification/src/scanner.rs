//! The decisions around a duplicate scan: which configurations may start,
//! how the groups that the scanner reports become reviewable duplicate
//! groups, and which progress updates are worth reporting.
use crate::models::{
    file_ids, has_file, ids_except, keep_index, lemma_keep_index_range, path_views,
    policy_selection, sum_groups, group_file_count, group_selected_bytes,
    DuplicateFile, DuplicateFileId, DuplicateGroup, GroupId, ScanConfig, ScanPath, ScanResult,
    ScanSummary, SelectionPolicy, Timestamp,
};
use crate::path::copy_bytes;
use vstd::prelude::*;

verus! {

#[derive(Clone, Debug)]
pub enum ScanEvent {
    Started,
    PhaseStarted { name: String, total: Option<u64> },
    Progress { processed: u64, total: Option<u64> },
    FilesDiscovered(u64),
    GroupFound(DuplicateGroup),
    Finished(ScanSummary),
    Failed(String),
    Cancelled,
}

#[derive(Clone, Debug, PartialEq, Eq)]
pub enum ScanError {
    NoPaths,
    InvalidSizeRange,
    Cancelled,
    Fclones(String),
}

/// What the duplicate finder is asked to group: the scan roots, the
/// smallest and largest file size considered, and whether its hash cache
/// is used.
#[derive(Clone, Debug, PartialEq, Eq)]
pub struct GroupRequest {
    pub paths: Vec<Vec<u8>>,
    pub min_size: u64,
    pub max_size: Option<u64>,
    pub cache: bool,
}

/// A file of a group as the duplicate finder reports it.
#[derive(Clone, Debug, PartialEq, Eq)]
pub struct RawFile {
    pub path: Vec<u8>,
    pub modified: Option<Timestamp>,
}

/// A group of files with identical content, as the duplicate finder reports it.
#[derive(Clone, Debug, PartialEq, Eq)]
pub struct RawGroup {
    pub file_len: u64,
    pub files: Vec<RawFile>,
}

/// The scanner built on the `fclones` duplicate finder.
#[derive(Clone, Copy, Debug, Default)]
pub struct FclonesScanner;

/// Whether a configuration's size range is empty.
pub open spec fn inverted_range(min_size: Option<u64>, max_size: Option<u64>) -> bool {
    match (min_size, max_size) {
        (Some(lo), Some(hi)) => lo > hi,
        _ => false,
    }
}

/// The paths of the preferred scan roots, in order.
pub open spec fn preferred_paths(paths: Seq<ScanPath>) -> Seq<Seq<u8>>
    decreases paths.len(),
{
    if paths.len() == 0 {
        Seq::empty()
    } else {
        let rest = preferred_paths(paths.drop_last());
        if paths.last().preferred {
            rest.push(paths.last().path@)
        } else {
            rest
        }
    }
}

/// Number of files in the first `k` raw groups.
pub open spec fn raw_file_count(raw: Seq<RawGroup>) -> nat
    decreases raw.len(),
{
    if raw.len() == 0 {
        0
    } else {
        raw_file_count(raw.drop_last()) + raw.last().files@.len()
    }
}

/// The files of raw group `k`, with ids numbered from `first_id` on.
pub open spec fn numbered_files(g: RawGroup, first_id: nat) -> Seq<DuplicateFile> {
    Seq::new(
        g.files@.len(),
        |j: int|
            DuplicateFile {
                id: DuplicateFileId((first_id + j) as u64),
                path: g.files@[j].path,
                size: g.file_len,
                modified: g.files@[j].modified,
            },
    )
}

/// Whether `g` is the reviewable group made of raw group `k`: its id is
/// `k + 1`, its files are numbered on from the files of earlier raw groups
/// (the first file of the scan is 1), and the file under a preferred root
/// (else the first) is kept while the others are selected.
pub open spec fn assembled_from(
    g: DuplicateGroup,
    raw: Seq<RawGroup>,
    k: int,
    preferred: Seq<Seq<u8>>,
) -> bool {
    let expect = numbered_files(raw[k], raw_file_count(raw.take(k)) + 1);
    &&& g.id == GroupId((k + 1) as u64)
    &&& g.file_size == raw[k].file_len
    &&& g.files@.len() == expect.len()
    &&& forall|j: int|
        0 <= j < expect.len() ==> {
            &&& #[trigger] g.files@[j].id == expect[j].id
            &&& g.files@[j].path@ == expect[j].path@
            &&& g.files@[j].size == expect[j].size
            &&& g.files@[j].modified == expect[j].modified
        }
    &&& g.selection() == policy_selection(
        g.files@,
        SelectionPolicy::PreferPreferredDirectories,
        preferred,
    )
    &&& g.well_formed()
}

/// The indices of the raw groups with at least two files, in order.
pub open spec fn kept_groups(raw: Seq<RawGroup>) -> Seq<int>
    decreases raw.len(),
{
    if raw.len() == 0 {
        Seq::empty()
    } else {
        let rest = kept_groups(raw.drop_last());
        if raw.last().files@.len() >= 2 {
            rest.push(raw.len() - 1)
        } else {
            rest
        }
    }
}

/// Bytes selected by the default policy: all files but one in each kept group.
pub open spec fn default_selected_bytes(raw: Seq<RawGroup>) -> nat
    decreases raw.len(),
{
    if raw.len() == 0 {
        0
    } else {
        default_selected_bytes(raw.drop_last()) + if raw.last().files@.len() >= 2 {
            ((raw.last().files@.len() - 1) * raw.last().file_len) as nat
        } else {
            0
        }
    }
}

proof fn lemma_raw_count_prefix(raw: Seq<RawGroup>, i: int)
    requires
        0 <= i < raw.len(),
    ensures
        raw_file_count(raw.take(i + 1)) == raw_file_count(raw.take(i)) + raw[i].files@.len(),
        raw_file_count(raw.take(i + 1)) <= raw_file_count(raw),
        default_selected_bytes(raw.take(i + 1)) == default_selected_bytes(raw.take(i)) + if raw[i].files@.len()
            >= 2 {
            ((raw[i].files@.len() - 1) * raw[i].file_len) as nat
        } else {
            0
        },
        default_selected_bytes(raw.take(i + 1)) <= default_selected_bytes(raw),
    decreases raw.len() - i,
{
    assert(raw.take(i + 1).drop_last() =~= raw.take(i));
    if i + 1 < raw.len() {
        lemma_raw_count_prefix(raw, i + 1);
    } else {
        assert(raw.take(i + 1) =~= raw);
    }
}

impl FclonesScanner {
    /// Checks a configuration and turns it into a request for the duplicate
    /// finder. A scan needs a root and a non-empty size range; a scan that
    /// was cancelled before it started is not run. An absent minimum size
    /// means one byte.
    pub fn prepare(config: &ScanConfig, cancelled: bool) -> (r: Result<GroupRequest, ScanError>)
        ensures
            config.paths@.len() == 0 ==> r == Err::<GroupRequest, ScanError>(ScanError::NoPaths),
            config.paths@.len() > 0 && inverted_range(config.min_size, config.max_size) ==> r
                == Err::<GroupRequest, ScanError>(ScanError::InvalidSizeRange),
            config.paths@.len() > 0 && !inverted_range(config.min_size, config.max_size)
                && cancelled ==> r == Err::<GroupRequest, ScanError>(ScanError::Cancelled),
            config.paths@.len() > 0 && !inverted_range(config.min_size, config.max_size)
                && !cancelled ==> r is Ok,
            r matches Ok(req) ==> {
                &&& req.paths@.len() == config.paths@.len()
                &&& forall|i: int|
                    0 <= i < req.paths@.len() ==> #[trigger] req.paths@[i]@
                        == config.paths@[i].path@
                &&& req.min_size == match config.min_size {
                    Some(m) => m,
                    None => 1,
                }
                &&& req.max_size == config.max_size
                &&& req.cache == config.cache
            },
    {
        if config.paths.len() == 0 {
            return Err(ScanError::NoPaths);
        }
        if let (Some(lo), Some(hi)) = (config.min_size, config.max_size) {
            if lo > hi {
                return Err(ScanError::InvalidSizeRange);
            }
        }
        if cancelled {
            return Err(ScanError::Cancelled);
        }
        let mut paths: Vec<Vec<u8>> = Vec::new();
        let mut i: usize = 0;
        while i < config.paths.len()
            invariant
                0 <= i <= config.paths@.len(),
                paths@.len() == i,
                forall|k: int| 0 <= k < i ==> #[trigger] paths@[k]@ == config.paths@[k].path@,
            decreases config.paths@.len() - i,
        {
            paths.push(copy_bytes(config.paths[i].path.as_slice()));
            i = i + 1;
        }
        let min_size = match config.min_size {
            Some(m) => m,
            None => 1,
        };
        Ok(GroupRequest { paths, min_size, max_size: config.max_size, cache: config.cache })
    }

    /// The paths of the preferred roots of a configuration.
    pub fn preferred_roots(paths: &[ScanPath]) -> (r: Vec<Vec<u8>>)
        ensures
            path_views(r@) == preferred_paths(paths@),
    {
        let mut out: Vec<Vec<u8>> = Vec::new();
        let mut i: usize = 0;
        while i < paths.len()
            invariant
                0 <= i <= paths@.len(),
                path_views(out@) == preferred_paths(paths@.take(i as int)),
            decreases paths@.len() - i,
        {
            assert(paths@.take(i + 1).drop_last() =~= paths@.take(i as int));
            assert(paths@.take(i + 1).last() == paths@[i as int]);
            if paths[i].preferred {
                out.push(copy_bytes(paths[i].path.as_slice()));
                assert(path_views(out@) =~= preferred_paths(paths@.take(i + 1)));
            }
            i = i + 1;
        }
        assert(paths@.take(paths@.len() as int) =~= paths@);
        out
    }

    /// Turns the duplicate finder's groups into reviewable groups: groups
    /// are numbered from 1 in the finder's order, files from 1 across the
    /// whole scan, groups of fewer than two files are dropped, and each
    /// group starts with the copy under a preferred root kept.
    pub fn assemble(raw: Vec<RawGroup>, preferred: &[Vec<u8>]) -> (r: Vec<DuplicateGroup>)
        requires
            raw_file_count(raw@) < u64::MAX,
        ensures
            r@.len() == kept_groups(raw@).len(),
            forall|i: int|
                0 <= i < r@.len() ==> assembled_from(
                    #[trigger] r@[i],
                    raw@,
                    kept_groups(raw@)[i],
                    path_views(preferred@),
                ),
    {
        let ghost pv = path_views(preferred@);
        let mut out: Vec<DuplicateGroup> = Vec::new();
        let mut next_id: u64 = 1;
        let mut gi: usize = 0;
        while gi < raw.len()
            invariant
                0 <= gi <= raw@.len(),
                pv == path_views(preferred@),
                raw_file_count(raw@) < u64::MAX,
                next_id == raw_file_count(raw@.take(gi as int)) + 1,
                out@.len() == kept_groups(raw@.take(gi as int)).len(),
                forall|k: int| 0 <= k < kept_groups(raw@.take(gi as int)).len() ==> 0 <= #[trigger] kept_groups(raw@.take(gi as int))[k] < gi,
                forall|k: int|
                    0 <= k < out@.len() ==> assembled_from(
                        #[trigger] out@[k],
                        raw@,
                        kept_groups(raw@.take(gi as int))[k],
                        pv,
                    ),
            decreases raw@.len() - gi,
        {
            proof {
                lemma_raw_count_prefix(raw@, gi as int);
                assert(raw@.take(gi + 1).drop_last() =~= raw@.take(gi as int));
                assert(raw@.take(gi + 1).last() == raw@[gi as int]);
            }
            let g = &raw[gi];
            let first_id = next_id;
            let ghost expect = numbered_files(raw@[gi as int], first_id as nat);
            let mut files: Vec<DuplicateFile> = Vec::new();
            let mut j: usize = 0;
            while j < g.files.len()
                invariant
                    0 <= j <= g.files@.len(),
                    g == raw@[gi as int],
                    raw_file_count(raw@.take(gi + 1)) <= raw_file_count(raw@),
                    raw_file_count(raw@) < u64::MAX,
                    raw_file_count(raw@.take(gi + 1)) == raw_file_count(raw@.take(gi as int))
                        + g.files@.len(),
                    first_id == raw_file_count(raw@.take(gi as int)) + 1,
                    next_id == first_id + j,
                    expect == numbered_files(raw@[gi as int], first_id as nat),
                    files@.len() == j,
                    forall|k: int|
                        0 <= k < j ==> {
                            &&& #[trigger] files@[k].id == expect[k].id
                            &&& files@[k].path@ == expect[k].path@
                            &&& files@[k].size == expect[k].size
                            &&& files@[k].modified == expect[k].modified
                        },
                decreases g.files@.len() - j,
            {
                let f = &g.files[j];
                files.push(
                    DuplicateFile {
                        id: DuplicateFileId(next_id),
                        path: copy_bytes(f.path.as_slice()),
                        size: g.file_len,
                        modified: f.modified,
                    },
                );
                next_id = next_id + 1;
                j = j + 1;
            }
            let group_id = GroupId(gi as u64 + 1);
            match DuplicateGroup::new(group_id, g.file_len, files) {
                Ok(mut group) => {
                    group.apply_selection(SelectionPolicy::PreferPreferredDirectories, preferred);
                    proof {
                        lemma_policy_selection_bounded(
                            group.files@,
                            SelectionPolicy::PreferPreferredDirectories,
                            pv,
                        );
                    }
                    out.push(group);
                    proof {
                        assert(kept_groups(raw@.take(gi + 1)) == kept_groups(raw@.take(gi as int)).push(gi as int));
                    }
                },
                Err(_) => {
                    proof {
                        assert(kept_groups(raw@.take(gi + 1)) == kept_groups(raw@.take(gi as int)));
                    }
                },
            }
            gi = gi + 1;
        }
        assert(raw@.take(raw@.len() as int) =~= raw@);
        out
    }

    /// The result of a finished scan: refused when the scan was cancelled
    /// while the duplicate finder ran, otherwise the assembled groups with
    /// their summary.
    pub fn finish(raw: Vec<RawGroup>, config: &ScanConfig, cancelled: bool) -> (r: Result<
        ScanResult,
        ScanError,
    >)
        requires
            raw_file_count(raw@) < u64::MAX,
            default_selected_bytes(raw@) <= u64::MAX,
        ensures
            cancelled ==> r == Err::<ScanResult, ScanError>(ScanError::Cancelled),
            !cancelled ==> r is Ok,
            r matches Ok(res) ==> {
                &&& res.groups@.len() == kept_groups(raw@).len()
                &&& forall|i: int|
                    0 <= i < res.groups@.len() ==> assembled_from(
                        #[trigger] res.groups@[i],
                        raw@,
                        kept_groups(raw@)[i],
                        preferred_paths(config.paths@),
                    )
                &&& res.summary.duplicate_groups == res.groups@.len()
                &&& res.summary.duplicate_files == sum_groups(
                    res.groups@,
                    |g: DuplicateGroup| group_file_count(g),
                )
                &&& res.summary.recoverable_bytes == sum_groups(
                    res.groups@,
                    |g: DuplicateGroup| group_selected_bytes(g),
                )
            },
    {
        if cancelled {
            return Err(ScanError::Cancelled);
        }
        let preferred = Self::preferred_roots(config.paths.as_slice());
        let ghost rawv = raw@;
        let groups = Self::assemble(raw, preferred.as_slice());
        proof {
            lemma_assembled_sums(groups@, rawv, path_views(preferred@));
        }
        Ok(ScanResult::from_groups(groups))
    }
}

proof fn lemma_kept_groups_range(raw: Seq<RawGroup>)
    ensures
        forall|i: int|
            0 <= i < kept_groups(raw).len() ==> 0 <= #[trigger] kept_groups(raw)[i] < raw.len()
                && raw[kept_groups(raw)[i]].files@.len() >= 2,
    decreases raw.len(),
{
    if raw.len() > 0 {
        lemma_kept_groups_range(raw.drop_last());
        assert forall|i: int|
            0 <= i < kept_groups(raw).len() implies 0 <= #[trigger] kept_groups(raw)[i] < raw.len()
                && raw[kept_groups(raw)[i]].files@.len() >= 2 by {
            if i < kept_groups(raw.drop_last()).len() {
                assert(kept_groups(raw)[i] == kept_groups(raw.drop_last())[i]);
                assert(raw[kept_groups(raw)[i]] == raw.drop_last()[kept_groups(raw)[i]]);
            }
        }
    }
}

/// Group sums are bounded by the raw groups that the groups were made of.
proof fn lemma_sums_bounded(groups: Seq<DuplicateGroup>, raw: Seq<RawGroup>)
    requires
        groups.len() == kept_groups(raw).len(),
        forall|i: int|
            0 <= i < groups.len() ==> {
                &&& (#[trigger] groups[i]).files@.len() == raw[kept_groups(raw)[i]].files@.len()
                &&& groups[i].file_size == raw[kept_groups(raw)[i]].file_len
                &&& groups[i].selection().len() < groups[i].files@.len()
            },
    ensures
        sum_groups(groups, |g: DuplicateGroup| group_file_count(g)) <= raw_file_count(raw),
        sum_groups(groups, |g: DuplicateGroup| group_selected_bytes(g)) <= default_selected_bytes(
            raw,
        ),
    decreases raw.len(),
{
    let ff = |g: DuplicateGroup| group_file_count(g);
    let fb = |g: DuplicateGroup| group_selected_bytes(g);
    if raw.len() > 0 {
        let r2 = raw.drop_last();
        lemma_kept_groups_range(r2);
        let last = raw.len() - 1;
        if raw.last().files@.len() >= 2 {
            let g2 = groups.drop_last();
            assert forall|i: int| 0 <= i < g2.len() implies {
                &&& (#[trigger] g2[i]).files@.len() == r2[kept_groups(r2)[i]].files@.len()
                &&& g2[i].file_size == r2[kept_groups(r2)[i]].file_len
                &&& g2[i].selection().len() < g2[i].files@.len()
            } by {
                assert(g2[i] == groups[i]);
                assert(kept_groups(raw)[i] == kept_groups(r2)[i]);
                assert(raw[kept_groups(r2)[i]] == r2[kept_groups(r2)[i]]);
            }
            lemma_sums_bounded(g2, r2);
            let g = groups.last();
            assert(kept_groups(raw)[groups.len() - 1] == last);
            assert(g.files@.len() == raw.last().files@.len());
            let n = g.files@.len();
            let s = g.selection().len();
            assert(s * g.file_size <= (n - 1) * g.file_size) by (nonlinear_arith)
                requires
                    s <= n - 1,
            ;
        } else {
            lemma_sums_bounded(groups, r2);
        }
    } else {
        assert(groups.len() == 0);
    }
}

/// The selection a policy produces names only files of the group and
/// leaves at least one id unselected.
pub proof fn lemma_policy_selection_bounded(
    files: Seq<DuplicateFile>,
    policy: SelectionPolicy,
    preferred: Seq<Seq<u8>>,
)
    requires
        files.len() >= 1,
    ensures
        policy_selection(files, policy, preferred).finite(),
        policy_selection(files, policy, preferred).len() < files.len(),
        forall|id: u64|
            #[trigger] policy_selection(files, policy, preferred).contains(id) ==> has_file(
                files,
                id,
            ),
{
    if policy != SelectionPolicy::ClearSelection {
        let keep = keep_index(files, policy, preferred);
        lemma_keep_index_range(files, policy, preferred);
        let ids = file_ids(files).remove(keep);
        assert(ids_except(files, keep) =~= ids.to_set()) by {
            assert forall|id: u64| ids_except(files, keep).contains(id) implies ids.to_set().contains(id) by {
                let i = choose|i: int| 0 <= i < files.len() && i != keep && #[trigger] files[i].id.0 == id;
                if i < keep {
                    assert(ids[i] == id);
                } else {
                    assert(ids[i - 1] == id);
                }
            }
            assert forall|id: u64| ids.to_set().contains(id) implies ids_except(files, keep).contains(id) by {
                let j = choose|j: int| 0 <= j < ids.len() && ids[j] == id;
                if j < keep {
                    assert(files[j].id.0 == id);
                } else {
                    assert(files[j + 1].id.0 == id);
                }
            }
        }
        ids.lemma_cardinality_of_set();
        assert forall|id: u64|
            #[trigger] policy_selection(files, policy, preferred).contains(id) implies has_file(files, id) by {
            let i = choose|i: int| 0 <= i < files.len() && i != keep && #[trigger] files[i].id.0 == id;
        }
    } else {
        assert(policy_selection(files, policy, preferred) =~= Set::<u64>::empty());
    }
}

proof fn lemma_assembled_sums(groups: Seq<DuplicateGroup>, raw: Seq<RawGroup>, pv: Seq<Seq<u8>>)
    requires
        groups.len() == kept_groups(raw).len(),
        forall|i: int| 0 <= i < groups.len() ==> assembled_from(#[trigger] groups[i], raw, kept_groups(raw)[i], pv),
        raw_file_count(raw) < u64::MAX,
        default_selected_bytes(raw) <= u64::MAX,
    ensures
        sum_groups(groups, |g: DuplicateGroup| group_file_count(g)) <= u64::MAX,
        sum_groups(groups, |g: DuplicateGroup| group_selected_bytes(g)) <= u64::MAX,
{
    lemma_kept_groups_range(raw);
    assert forall|i: int| 0 <= i < groups.len() implies {
        &&& (#[trigger] groups[i]).files@.len() == raw[kept_groups(raw)[i]].files@.len()
        &&& groups[i].file_size == raw[kept_groups(raw)[i]].file_len
        &&& groups[i].selection().len() < groups[i].files@.len()
    } by {
        assert(assembled_from(groups[i], raw, kept_groups(raw)[i], pv));
    }
    lemma_sums_bounded(groups, raw);
}

/// Decides which progress updates of one scan phase are reported: an
/// update is reported when it completes the phase's known total, or when it
/// is at least `minimum_step` past the last reported one.
#[derive(Clone, Copy, Debug, PartialEq, Eq, Structural)]
pub struct ProgressThrottle {
    pub total: Option<u64>,
    pub minimum_step: u64,
    pub processed: u64,
    pub last_emitted: u64,
}

/// Whether an update at `processed` is reported.
pub open spec fn reports(t: ProgressThrottle, processed: u64) -> bool {
    let end = match t.total {
        Some(n) => n,
        None => u64::MAX,
    };
    let since: int = if processed >= t.last_emitted {
        processed - t.last_emitted
    } else {
        0
    };
    processed == end || since >= t.minimum_step
}

impl ProgressThrottle {
    /// A phase with the given total: updates are reported every 1/200 of
    /// the total (at least every item), or every 1024 items when the total
    /// is unknown.
    pub fn new(total: Option<u64>) -> (r: Self)
        ensures
            r.total == total,
            r.processed == 0,
            r.last_emitted == 0,
            r.minimum_step == match total {
                Some(n) => if n / 200 >= 1 {
                    n / 200
                } else {
                    1
                },
                None => 1024,
            },
    {
        let minimum_step = match total {
            Some(n) => if n / 200 >= 1 {
                n / 200
            } else {
                1
            },
            None => 1024,
        };
        ProgressThrottle { total, minimum_step, processed: 0, last_emitted: 0 }
    }

    /// A phase with an explicit reporting step.
    pub fn with_step(total: Option<u64>, minimum_step: u64) -> (r: Self)
        ensures
            r == (ProgressThrottle { total, minimum_step, processed: 0, last_emitted: 0 }),
    {
        ProgressThrottle { total, minimum_step, processed: 0, last_emitted: 0 }
    }

    /// Records `delta` more processed items and returns the progress event
    /// to report, if this update is reported.
    pub fn inc(&mut self, delta: u64) -> (r: Option<ScanEvent>)
        requires
            old(self).processed + delta <= u64::MAX,
        ensures
            final(self).total == old(self).total,
            final(self).minimum_step == old(self).minimum_step,
            final(self).processed == old(self).processed + delta,
            reports(*old(self), (old(self).processed + delta) as u64) ==> {
                &&& final(self).last_emitted == final(self).processed
                &&& r matches Some(ScanEvent::Progress { processed, total })
                &&& processed == final(self).processed
                &&& total == old(self).total
            },
            !reports(*old(self), (old(self).processed + delta) as u64) ==> {
                &&& final(self).last_emitted == old(self).last_emitted
                &&& r is None
            },
    {
        let processed = self.processed + delta;
        self.processed = processed;
        let end = match self.total {
            Some(n) => n,
            None => u64::MAX,
        };
        let since = if processed >= self.last_emitted {
            processed - self.last_emitted
        } else {
            0
        };
        if processed != end && since < self.minimum_step {
            return None;
        }
        self.last_emitted = processed;
        Some(ScanEvent::Progress { processed, total: self.total })
    }
}

/// Progress updates are coalesced but the phase's end is always reported:
/// an update that reaches a known total is reported, and an update that is
/// not reported is less than one step past the last reported one.
pub proof fn law_progress_reports_total(t: ProgressThrottle, delta: u64)
    requires
        t.processed + delta <= u64::MAX,
        t.last_emitted <= t.processed,
    ensures
        (t.total matches Some(n) && t.processed + delta == n) ==> reports(
            t,
            (t.processed + delta) as u64,
        ),
        !reports(t, (t.processed + delta) as u64) ==> t.processed + delta - t.last_emitted
            < t.minimum_step,
{
}


/// The throttle after `n` updates of one item each, and how many of those
/// updates were reported (see [`ProgressThrottle::inc`]).
pub open spec fn after_single_steps(t: ProgressThrottle, n: nat) -> (ProgressThrottle, nat)
    decreases n,
{
    if n == 0 {
        (t, 0)
    } else {
        let (u, c) = after_single_steps(t, (n - 1) as nat);
        let p = (u.processed + 1) as u64;
        if reports(u, p) {
            (ProgressThrottle { processed: p, last_emitted: p, ..u }, c + 1)
        } else {
            (ProgressThrottle { processed: p, ..u }, c)
        }
    }
}

proof fn lemma_single_steps(t: ProgressThrottle, n: nat)
    requires
        t.processed == 0,
        t.last_emitted == 0,
        t.minimum_step >= 1,
        n <= u64::MAX,
    ensures
        ({
            let (u, c) = after_single_steps(t, n);
            let end: int = match t.total {
                Some(e) => e as int,
                None => u64::MAX as int,
            };
            &&& u.total == t.total
            &&& u.minimum_step == t.minimum_step
            &&& u.processed == n
            &&& u.last_emitted <= n
            &&& c <= (u.last_emitted as int) / (t.minimum_step as int) + if n >= end {
                1int
            } else {
                0int
            }
        }),
    decreases n,
{
    if n > 0 {
        lemma_single_steps(t, (n - 1) as nat);
        let (u, c) = after_single_steps(t, (n - 1) as nat);
        let p = (u.processed + 1) as u64;
        let step = t.minimum_step as int;
        let end: int = match t.total {
            Some(e) => e as int,
            None => u64::MAX as int,
        };
        if reports(u, p) {
            if p as int != end {
                assert(p - u.last_emitted >= step);
                vstd::arithmetic::div_mod::lemma_div_plus_one(u.last_emitted as int, step);
                vstd::arithmetic::div_mod::lemma_div_is_ordered(
                    step + u.last_emitted,
                    p as int,
                    step,
                );
            } else {
                vstd::arithmetic::div_mod::lemma_div_is_ordered(
                    u.last_emitted as int,
                    p as int,
                    step,
                );
            }
        }
    }
}

/// Progress updates are coalesced: of `n` updates of one item each, at most
/// `n / minimum_step + 1` are reported.
pub proof fn law_progress_is_coalesced(total: Option<u64>, minimum_step: u64, n: nat)
    requires
        minimum_step >= 1,
        n <= u64::MAX,
    ensures
        after_single_steps(
            ProgressThrottle { total, minimum_step, processed: 0, last_emitted: 0 },
            n,
        ).1 <= (n as int) / (minimum_step as int) + 1,
{
    let t = ProgressThrottle { total, minimum_step, processed: 0, last_emitted: 0 };
    lemma_single_steps(t, n);
    let (u, c) = after_single_steps(t, n);
    vstd::arithmetic::div_mod::lemma_div_is_ordered(u.last_emitted as int, n as int, minimum_step as int);
}

} // verus!
