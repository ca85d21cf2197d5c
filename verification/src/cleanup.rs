//! Cleanup planning, the safety check before removal, and the outcome of a
//! removal run.
//!
//! The work is split at the file system: the caller stats the planned files
//! and removes them; this module decides what is planned, whether removal may
//! start, and what the run achieved.
use crate::models::{
    distinct_ids, files_in, group_selected_bytes, has_file, lemma_some_file_unselected, sum_groups,
    DuplicateFile, DuplicateGroup, ScanResult, SelectionError, Timestamp,
};
use crate::path::copy_bytes;
use vstd::prelude::*;

verus! {

#[derive(Clone, Copy, Debug, PartialEq, Eq, Structural)]
pub enum CleanupAction {
    Trash,
    PermanentDelete,
}

/// A planned file as the scan saw it.
#[derive(Clone, Debug, PartialEq, Eq)]
pub struct FileSnapshot {
    pub path: Vec<u8>,
    pub size: u64,
    pub modified: Option<Timestamp>,
}

#[derive(Clone, Debug, PartialEq, Eq)]
pub struct CleanupPlan {
    pub action: CleanupAction,
    pub files: Vec<FileSnapshot>,
    pub bytes: u64,
}

#[derive(Clone, Debug, PartialEq, Eq)]
pub struct CleanupPreflight {
    pub plan: CleanupPlan,
    pub missing: Vec<Vec<u8>>,
    pub changed: Vec<Vec<u8>>,
}

#[derive(Clone, Debug, PartialEq, Eq)]
pub struct CleanupFailure {
    pub path: Vec<u8>,
    pub message: String,
}

#[derive(Clone, Debug, PartialEq, Eq)]
pub struct CleanupOutcome {
    pub action: CleanupAction,
    pub removed: Vec<Vec<u8>>,
    pub recovered_bytes: u64,
    pub failures: Vec<CleanupFailure>,
}

#[derive(Clone, Copy, Debug, PartialEq, Eq, Structural)]
pub enum CleanupError {
    InvalidSelection(SelectionError),
    UnsafePreflight { missing: usize, changed: usize },
}

/// What the file system reports for a planned file just before cleanup.
#[derive(Clone, Copy, Debug, PartialEq, Eq, Structural)]
pub enum FileState {
    /// The file no longer exists.
    Missing,
    /// Its metadata could not be read for another reason.
    Unreadable,
    /// It exists with this length and modification time (none when the
    /// platform does not report one).
    Present { len: u64, modified: Option<Timestamp> },
}

pub struct CleanupService;

/// The files that a cleanup of `groups` removes: each group's selected
/// files, group after group.
pub open spec fn planned_files(groups: Seq<DuplicateGroup>) -> Seq<DuplicateFile>
    decreases groups.len(),
{
    if groups.len() == 0 {
        Seq::empty()
    } else {
        planned_files(groups.drop_last()) + files_in(
            groups.last().files@,
            groups.last().selection(),
        )
    }
}

/// The sum of the sizes of the files.
pub open spec fn total_size(files: Seq<DuplicateFile>) -> nat
    decreases files.len(),
{
    if files.len() == 0 {
        0
    } else {
        total_size(files.drop_last()) + (files.last().size as nat)
    }
}

/// The sum of the sizes of the snapshots.
pub open spec fn snapshot_bytes(files: Seq<FileSnapshot>) -> nat
    decreases files.len(),
{
    if files.len() == 0 {
        0
    } else {
        snapshot_bytes(files.drop_last()) + (files.last().size as nat)
    }
}

/// Whether a snapshot records a file as the scan saw it.
pub open spec fn snapshot_of(s: FileSnapshot, f: DuplicateFile) -> bool {
    s.path@ == f.path@ && s.size == f.size && s.modified == f.modified
}

/// Whether a file's current state differs from its snapshot in a way that
/// makes removal unsafe, other than being missing.
pub open spec fn state_changed(s: FileSnapshot, st: FileState) -> bool {
    match st {
        FileState::Missing => false,
        FileState::Unreadable => true,
        FileState::Present { len, modified } => len != s.size || modified != s.modified,
    }
}

/// Paths of the planned files found missing, in plan order.
pub open spec fn missing_paths(files: Seq<FileSnapshot>, states: Seq<FileState>) -> Seq<Seq<u8>>
    decreases files.len(),
{
    if files.len() == 0 {
        Seq::empty()
    } else {
        let rest = missing_paths(files.drop_last(), states);
        if states[files.len() - 1] == FileState::Missing {
            rest.push(files.last().path@)
        } else {
            rest
        }
    }
}

/// Paths of the planned files found changed or unreadable, in plan order.
pub open spec fn changed_paths(files: Seq<FileSnapshot>, states: Seq<FileState>) -> Seq<Seq<u8>>
    decreases files.len(),
{
    if files.len() == 0 {
        Seq::empty()
    } else {
        let rest = changed_paths(files.drop_last(), states);
        if state_changed(files.last(), states[files.len() - 1]) {
            rest.push(files.last().path@)
        } else {
            rest
        }
    }
}

/// Paths of the files whose removal succeeded, in plan order.
pub open spec fn removed_paths(files: Seq<FileSnapshot>, results: Seq<Result<(), String>>) -> Seq<
    Seq<u8>,
>
    decreases files.len(),
{
    if files.len() == 0 {
        Seq::empty()
    } else {
        let rest = removed_paths(files.drop_last(), results);
        if results[files.len() - 1] is Ok {
            rest.push(files.last().path@)
        } else {
            rest
        }
    }
}

/// Bytes of the files whose removal succeeded.
pub open spec fn removed_bytes(files: Seq<FileSnapshot>, results: Seq<Result<(), String>>) -> nat
    decreases files.len(),
{
    if files.len() == 0 {
        0
    } else {
        removed_bytes(files.drop_last(), results) + if results[files.len() - 1] is Ok {
            files.last().size as nat
        } else {
            0
        }
    }
}

/// The failed removals, each with its path and message, in plan order.
pub open spec fn failed_removals(files: Seq<FileSnapshot>, results: Seq<Result<(), String>>) -> Seq<
    (Seq<u8>, Seq<char>),
>
    decreases files.len(),
{
    if files.len() == 0 {
        Seq::empty()
    } else {
        let rest = failed_removals(files.drop_last(), results);
        match results[files.len() - 1] {
            Ok(_) => rest,
            Err(m) => rest.push((files.last().path@, m@)),
        }
    }
}

/// The paths of a list of byte strings.
pub open spec fn byte_views(v: Seq<Vec<u8>>) -> Seq<Seq<u8>> {
    v.map_values(|b: Vec<u8>| b@)
}

/// The failures as path and message.
pub open spec fn failure_views(v: Seq<CleanupFailure>) -> Seq<(Seq<u8>, Seq<char>)> {
    v.map_values(|f: CleanupFailure| (f.path@, f.message@))
}

proof fn lemma_total_size_prefix(files: Seq<DuplicateFile>, i: int)
    requires
        0 <= i < files.len(),
    ensures
        total_size(files.take(i + 1)) == total_size(files.take(i)) + files[i].size,
        total_size(files.take(i + 1)) <= total_size(files),
    decreases files.len() - i,
{
    assert(files.take(i + 1).drop_last() =~= files.take(i));
    if i + 1 < files.len() {
        lemma_total_size_prefix(files, i + 1);
    } else {
        assert(files.take(i + 1) =~= files);
    }
}

proof fn lemma_removed_bytes_prefix(
    files: Seq<FileSnapshot>,
    results: Seq<Result<(), String>>,
    i: int,
)
    requires
        0 <= i < files.len(),
    ensures
        removed_bytes(files.take(i + 1), results) == removed_bytes(files.take(i), results) + if results[i] is Ok {
            files[i].size as nat
        } else {
            0
        },
        removed_bytes(files.take(i + 1), results) <= removed_bytes(files, results),
    decreases files.len() - i,
{
    assert(files.take(i + 1).drop_last() =~= files.take(i));
    if i + 1 < files.len() {
        lemma_removed_bytes_prefix(files, results, i + 1);
    } else {
        assert(files.take(i + 1) =~= files);
    }
}

/// A snapshot of a file as the scan saw it.
pub fn snapshot(file: &DuplicateFile) -> (r: FileSnapshot)
    ensures
        snapshot_of(r, *file),
{
    FileSnapshot { path: copy_bytes(file.path.as_slice()), size: file.size, modified: file.modified }
}

impl CleanupService {
    /// Plans the removal of every selected file, group after group, after
    /// checking that no group has every file selected.
    pub fn plan(result: &ScanResult, action: CleanupAction) -> (r: Result<CleanupPlan, CleanupError>)
        requires
            total_size(planned_files(result.groups@)) <= u64::MAX,
        ensures
            (exists|i: int|
                0 <= i < result.groups@.len() && #[trigger] result.groups@[i].selection().len()
                    >= result.groups@[i].files@.len()) ==> r == Err::<CleanupPlan, CleanupError>(
                CleanupError::InvalidSelection(SelectionError::WouldSelectEveryCopy),
            ),
            (forall|i: int|
                0 <= i < result.groups@.len() ==> #[trigger] result.groups@[i].selection().len()
                    < result.groups@[i].files@.len()) ==> r is Ok,
            r matches Ok(p) ==> {
                &&& p.action == action
                &&& p.files@.len() == planned_files(result.groups@).len()
                &&& forall|k: int|
                    0 <= k < p.files@.len() ==> snapshot_of(
                        #[trigger] p.files@[k],
                        planned_files(result.groups@)[k],
                    )
                &&& p.bytes == total_size(planned_files(result.groups@))
            },
    {
        if let Err(e) = result.validate_selection() {
            return Err(CleanupError::InvalidSelection(e));
        }
        let ghost planned = planned_files(result.groups@);
        let mut files: Vec<FileSnapshot> = Vec::new();
        let mut bytes: u64 = 0;
        let mut gi: usize = 0;
        while gi < result.groups.len()
            invariant
                0 <= gi <= result.groups@.len(),
                planned == planned_files(result.groups@),
                total_size(planned) <= u64::MAX,
                files@.len() == planned_files(result.groups@.take(gi as int)).len(),
                forall|k: int|
                    0 <= k < files@.len() ==> snapshot_of(
                        #[trigger] files@[k],
                        planned_files(result.groups@.take(gi as int))[k],
                    ),
                planned_files(result.groups@.take(gi as int)) =~= planned.take(files@.len() as int),
                files@.len() <= planned.len(),
                bytes == total_size(planned.take(files@.len() as int)),
            decreases result.groups@.len() - gi,
        {
            let g = &result.groups[gi];
            let selected = g.selected_files();
            let ghost before = planned_files(result.groups@.take(gi as int));
            let ghost chunk = files_in(g.files@, g.selection());
            proof {
                assert(result.groups@.take(gi + 1).drop_last() =~= result.groups@.take(gi as int));
                assert(planned_files(result.groups@.take(gi + 1)) == before + chunk);
                lemma_planned_prefix(result.groups@, (gi + 1) as int);
            }
            let mut j: usize = 0;
            while j < selected.len()
                invariant
                    0 <= j <= selected@.len(),
                    selected@.len() == chunk.len(),
                    forall|k: int| 0 <= k < selected@.len() ==> *selected@[k] == chunk[k],
                    planned == planned_files(result.groups@),
                    total_size(planned) <= u64::MAX,
                    (before + chunk).len() <= planned.len(),
                    before + chunk == planned.take((before + chunk).len() as int),
                    files@.len() == before.len() + j,
                    forall|k: int|
                        0 <= k < files@.len() ==> snapshot_of(#[trigger] files@[k], (before + chunk)[k]),
                    bytes == total_size(planned.take(files@.len() as int)),
                decreases selected@.len() - j,
            {
                let f = selected[j];
                proof {
                    let n = files@.len() as int;
                    assert(planned[n] == (before + chunk)[n]);
                    assert((before + chunk)[n] == chunk[j as int]);
                    lemma_total_size_prefix(planned, n);
                }
                files.push(snapshot(f));
                bytes = bytes + f.size;
                j = j + 1;
            }
            gi = gi + 1;
        }
        assert(result.groups@.take(result.groups@.len() as int) =~= result.groups@);
        assert(planned.take(files@.len() as int) =~= planned);
        Ok(CleanupPlan { action, files, bytes })
    }

    /// Compares each planned file with what the file system reports now.
    /// `states[i]` is the state of `plan.files[i]`.
    pub fn preflight(plan: CleanupPlan, states: Vec<FileState>) -> (r: CleanupPreflight)
        requires
            states@.len() == plan.files@.len(),
        ensures
            r.plan == plan,
            byte_views(r.missing@) == missing_paths(plan.files@, states@),
            byte_views(r.changed@) == changed_paths(plan.files@, states@),
    {
        let mut missing: Vec<Vec<u8>> = Vec::new();
        let mut changed: Vec<Vec<u8>> = Vec::new();
        let mut i: usize = 0;
        while i < plan.files.len()
            invariant
                0 <= i <= plan.files@.len(),
                states@.len() == plan.files@.len(),
                byte_views(missing@) == missing_paths(plan.files@.take(i as int), states@),
                byte_views(changed@) == changed_paths(plan.files@.take(i as int), states@),
            decreases plan.files@.len() - i,
        {
            let f = &plan.files[i];
            let ghost t = plan.files@.take(i + 1);
            assert(t.drop_last() =~= plan.files@.take(i as int));
            assert(t.last() == plan.files@[i as int]);
            match states[i] {
                FileState::Missing => {
                    missing.push(copy_bytes(f.path.as_slice()));
                    assert(byte_views(missing@) =~= missing_paths(t, states@));
                },
                FileState::Unreadable => {
                    changed.push(copy_bytes(f.path.as_slice()));
                    assert(byte_views(changed@) =~= changed_paths(t, states@));
                },
                FileState::Present { len, modified } => {
                    if len != f.size || !same_time(modified, f.modified) {
                        changed.push(copy_bytes(f.path.as_slice()));
                        assert(byte_views(changed@) =~= changed_paths(t, states@));
                    }
                },
            }
            i = i + 1;
        }
        assert(plan.files@.take(plan.files@.len() as int) =~= plan.files@);
        CleanupPreflight { plan, missing, changed }
    }

    /// Refuses to start removal when any planned file is missing or changed.
    pub fn check(preflight: &CleanupPreflight) -> (r: Result<(), CleanupError>)
        ensures
            preflight.missing@.len() == 0 && preflight.changed@.len() == 0 ==> r is Ok,
            !(preflight.missing@.len() == 0 && preflight.changed@.len() == 0) ==> r == Err::<
                (),
                CleanupError,
            >(
                CleanupError::UnsafePreflight {
                    missing: preflight.missing@.len() as usize,
                    changed: preflight.changed@.len() as usize,
                },
            ),
    {
        if preflight.missing.len() != 0 || preflight.changed.len() != 0 {
            return Err(
                CleanupError::UnsafePreflight {
                    missing: preflight.missing.len(),
                    changed: preflight.changed.len(),
                },
            );
        }
        Ok(())
    }

    /// The outcome of a removal run. It is refused, with nothing removed,
    /// when the preflight found missing or changed files; otherwise
    /// `results[i]` is what removing `plan.files[i]` returned.
    pub fn execute(preflight: CleanupPreflight, results: Vec<Result<(), String>>) -> (r: Result<
        CleanupOutcome,
        CleanupError,
    >)
        requires
            preflight.missing@.len() == 0 && preflight.changed@.len() == 0 ==> results@.len()
                == preflight.plan.files@.len(),
            preflight.missing@.len() == 0 && preflight.changed@.len() == 0 ==> removed_bytes(
                preflight.plan.files@,
                results@,
            ) <= u64::MAX,
        ensures
            !(preflight.missing@.len() == 0 && preflight.changed@.len() == 0) ==> r == Err::<
                CleanupOutcome,
                CleanupError,
            >(
                CleanupError::UnsafePreflight {
                    missing: preflight.missing@.len() as usize,
                    changed: preflight.changed@.len() as usize,
                },
            ),
            preflight.missing@.len() == 0 && preflight.changed@.len() == 0 ==> r is Ok,
            r matches Ok(out) ==> {
                &&& out.action == preflight.plan.action
                &&& byte_views(out.removed@) == removed_paths(preflight.plan.files@, results@)
                &&& out.recovered_bytes == removed_bytes(preflight.plan.files@, results@)
                &&& failure_views(out.failures@) == failed_removals(
                    preflight.plan.files@,
                    results@,
                )
            },
    {
        if let Err(e) = Self::check(&preflight) {
            return Err(e);
        }
        let files = &preflight.plan.files;
        let mut removed: Vec<Vec<u8>> = Vec::new();
        let mut failures: Vec<CleanupFailure> = Vec::new();
        let mut recovered: u64 = 0;
        let mut i: usize = 0;
        let ghost all = results@;
        while i < files.len()
            invariant
                0 <= i <= files@.len(),
                all.len() == files@.len(),
                removed_bytes(files@, all) <= u64::MAX,
                results@ == all,
                byte_views(removed@) == removed_paths(files@.take(i as int), all),
                recovered == removed_bytes(files@.take(i as int), all),
                failure_views(failures@) == failed_removals(files@.take(i as int), all),
            decreases files@.len() - i,
        {
            let f = &files[i];
            let ghost t = files@.take(i + 1);
            assert(t.drop_last() =~= files@.take(i as int));
            assert(t.last() == files@[i as int]);
            proof {
                lemma_removed_bytes_prefix(files@, all, i as int);
            }
            match &results[i] {
                Ok(()) => {
                    recovered = recovered + f.size;
                    removed.push(copy_bytes(f.path.as_slice()));
                    assert(byte_views(removed@) =~= removed_paths(t, all));
                },
                Err(message) => {
                    failures.push(
                        CleanupFailure { path: copy_bytes(f.path.as_slice()), message: message.clone() },
                    );
                    assert(failure_views(failures@) =~= failed_removals(t, all));
                },
            }
            i = i + 1;
        }
        assert(files@.take(files@.len() as int) =~= files@);
        Ok(
            CleanupOutcome {
                action: preflight.plan.action,
                removed,
                recovered_bytes: recovered,
                failures,
            },
        )
    }
}

proof fn lemma_planned_prefix(groups: Seq<DuplicateGroup>, n: int)
    requires
        0 <= n <= groups.len(),
    ensures
        planned_files(groups.take(n)).len() <= planned_files(groups).len(),
        planned_files(groups.take(n)) == planned_files(groups).take(
            planned_files(groups.take(n)).len() as int,
        ),
    decreases groups.len() - n,
{
    if n < groups.len() {
        lemma_planned_prefix(groups, n + 1);
        let a = planned_files(groups.take(n));
        let b = planned_files(groups.take(n + 1));
        assert(groups.take(n + 1).drop_last() =~= groups.take(n));
        assert(b == a + files_in(groups[n].files@, groups[n].selection()));
        assert(a =~= b.take(a.len() as int));
        assert(a =~= planned_files(groups).take(a.len() as int));
    } else {
        assert(groups.take(n) =~= groups);
        assert(planned_files(groups) =~= planned_files(groups).take(
            planned_files(groups).len() as int,
        ));
    }
}

proof fn lemma_files_in_short(files: Seq<DuplicateFile>, sel: Set<u64>)
    ensures
        files_in(files, sel).len() <= files.len(),
        (exists|i: int| 0 <= i < files.len() && !sel.contains(#[trigger] files[i].id.0))
            ==> files_in(files, sel).len() < files.len(),
        forall|k: int|
            0 <= k < files_in(files, sel).len() ==> sel.contains(
                #[trigger] files_in(files, sel)[k].id.0,
            ),
    decreases files.len(),
{
    if files.len() > 0 {
        let d = files.drop_last();
        lemma_files_in_short(d, sel);
        if exists|i: int| 0 <= i < files.len() && !sel.contains(#[trigger] files[i].id.0) {
            let i = choose|i: int| 0 <= i < files.len() && !sel.contains(#[trigger] files[i].id.0);
            if i < files.len() - 1 {
                assert(d[i] == files[i]);
            }
        }
    }
}

/// A cleanup never removes every copy: in a well-formed group whose files
/// have distinct ids, the files planned for removal are fewer than the
/// group's files, and each of them is selected.
pub proof fn law_plan_keeps_a_copy(g: DuplicateGroup)
    requires
        g.well_formed(),
        distinct_ids(g.files@),
    ensures
        files_in(g.files@, g.selection()).len() < g.files@.len(),
        forall|k: int|
            0 <= k < files_in(g.files@, g.selection()).len() ==> g.selection().contains(
                #[trigger] files_in(g.files@, g.selection())[k].id.0,
            ),
{
    lemma_some_file_unselected(g.files@, g.selection());
    lemma_files_in_short(g.files@, g.selection());
}

proof fn lemma_files_in_agree(files: Seq<DuplicateFile>, s1: Set<u64>, s2: Set<u64>)
    requires
        forall|k: int| 0 <= k < files.len() ==> (s1.contains(#[trigger] files[k].id.0) == s2.contains(files[k].id.0)),
    ensures
        files_in(files, s1) == files_in(files, s2),
    decreases files.len(),
{
    if files.len() > 0 {
        let d = files.drop_last();
        assert forall|k: int| 0 <= k < d.len() implies (s1.contains(#[trigger] d[k].id.0) == s2.contains(d[k].id.0)) by {
            assert(d[k] == files[k]);
        }
        lemma_files_in_agree(d, s1, s2);
        assert(s1.contains(files[files.len() - 1].id.0) == s2.contains(files[files.len() - 1].id.0));
    }
}

/// With distinct ids, the files of a selection are as many as its ids.
pub(crate) proof fn lemma_files_in_count(files: Seq<DuplicateFile>, sel: Set<u64>)
    requires
        distinct_ids(files),
        sel.finite(),
        forall|id: u64| #[trigger] sel.contains(id) ==> has_file(files, id),
    ensures
        files_in(files, sel).len() == sel.len(),
    decreases files.len(),
{
    if files.len() == 0 {
        assert(sel =~= Set::<u64>::empty());
    } else {
        let d = files.drop_last();
        let l = files.last().id.0;
        assert(distinct_ids(d)) by {
            assert forall|i: int, j: int| 0 <= i < d.len() && 0 <= j < d.len() && i != j implies d[i].id.0 != d[j].id.0 by {
                assert(d[i] == files[i] && d[j] == files[j]);
            }
        }
        let rest = sel.remove(l);
        assert forall|id: u64| #[trigger] rest.contains(id) implies has_file(d, id) by {
            assert(has_file(files, id));
            let i = choose|i: int| 0 <= i < files.len() && #[trigger] files[i].id.0 == id;
            assert(i != files.len() - 1);
            assert(d[i] == files[i]);
        }
        lemma_files_in_count(d, rest);
        assert forall|k: int| 0 <= k < d.len() implies (sel.contains(#[trigger] d[k].id.0) == rest.contains(d[k].id.0)) by {
            assert(d[k] == files[k]);
            assert(files[k].id.0 != files[files.len() - 1].id.0);
        }
        lemma_files_in_agree(d, sel, rest);
        if sel.contains(l) {
            assert(sel.len() == rest.len() + 1);
        } else {
            assert(rest =~= sel);
        }
    }
}

/// When every file has size `size`, the files of a selection weigh their
/// number times `size`.
proof fn lemma_files_in_size(files: Seq<DuplicateFile>, sel: Set<u64>, size: u64)
    requires
        forall|k: int| 0 <= k < files.len() ==> #[trigger] files[k].size == size,
    ensures
        total_size(files_in(files, sel)) == files_in(files, sel).len() * size,
    decreases files.len(),
{
    if files.len() > 0 {
        let d = files.drop_last();
        assert forall|k: int| 0 <= k < d.len() implies #[trigger] d[k].size == size by {
            assert(d[k] == files[k]);
        }
        lemma_files_in_size(d, sel, size);
        let rest = files_in(d, sel);
        if sel.contains(files.last().id.0) {
            assert(rest.push(files.last()).drop_last() =~= rest);
            assert(files.last().size == files[files.len() - 1].size);
            assert((rest.len() + 1) * size == rest.len() * size + size) by (nonlinear_arith);
        }
    }
}

proof fn lemma_total_size_concat(a: Seq<DuplicateFile>, b: Seq<DuplicateFile>)
    ensures
        total_size(a + b) == total_size(a) + total_size(b),
    decreases b.len(),
{
    if b.len() == 0 {
        assert(a + b =~= a);
    } else {
        lemma_total_size_concat(a, b.drop_last());
        assert((a + b).drop_last() =~= a + b.drop_last());
        assert((a + b).last() == b.last());
    }
}

/// What a plan removes weighs what the selection says: when every file of
/// a group has the group's size, the bytes of the planned files are the
/// sum over the groups of the selected count times the file size, the
/// total that [`ScanResult::selected_bytes`] reports.
pub proof fn law_plan_bytes_are_selected_bytes(result: ScanResult)
    requires
        forall|i: int| 0 <= i < result.groups@.len() ==> (#[trigger] result.groups@[i]).well_formed(),
        forall|i: int| 0 <= i < result.groups@.len() ==> distinct_ids(#[trigger] result.groups@[i].files@),
        forall|i: int, k: int|
            0 <= i < result.groups@.len() && 0 <= k < result.groups@[i].files@.len()
                ==> #[trigger] result.groups@[i].files@[k].size == result.groups@[i].file_size,
    ensures
        total_size(planned_files(result.groups@)) == sum_groups(
            result.groups@,
            |g: DuplicateGroup| group_selected_bytes(g),
        ),
{
    lemma_plan_bytes(result.groups@);
}

proof fn lemma_plan_bytes(gs: Seq<DuplicateGroup>)
    requires
        forall|i: int| 0 <= i < gs.len() ==> (#[trigger] gs[i]).well_formed(),
        forall|i: int| 0 <= i < gs.len() ==> distinct_ids(#[trigger] gs[i].files@),
        forall|i: int, k: int|
            0 <= i < gs.len() && 0 <= k < gs[i].files@.len() ==> #[trigger] gs[i].files@[k].size == gs[i].file_size,
    ensures
        total_size(planned_files(gs)) == sum_groups(gs, |g: DuplicateGroup| group_selected_bytes(g)),
    decreases gs.len(),
{
    if gs.len() > 0 {
        let d = gs.drop_last();
        let g = gs.last();
        assert forall|i: int| 0 <= i < d.len() implies (#[trigger] d[i]).well_formed() by {
            assert(d[i] == gs[i]);
        }
        assert forall|i: int| 0 <= i < d.len() implies distinct_ids(#[trigger] d[i].files@) by {
            assert(d[i] == gs[i]);
        }
        assert forall|i: int, k: int| 0 <= i < d.len() && 0 <= k < d[i].files@.len() implies #[trigger] d[i].files@[k].size == d[i].file_size by {
            assert(d[i] == gs[i]);
        }
        lemma_plan_bytes(d);
        let last = gs.len() - 1;
        assert(g == gs[last]);
        assert(g.well_formed());
        assert(distinct_ids(g.files@));
        assert forall|k: int| 0 <= k < g.files@.len() implies #[trigger] g.files@[k].size == g.file_size by {
            assert(gs[last].files@[k].size == gs[last].file_size);
        }
        lemma_files_in_count(g.files@, g.selection());
        lemma_files_in_size(g.files@, g.selection(), g.file_size);
        lemma_total_size_concat(planned_files(d), files_in(g.files@, g.selection()));
    }
}

/// The preflight lets removal start exactly when every planned file is
/// still present with the size and modification time the scan recorded.
pub proof fn law_preflight_clear_iff_unchanged(files: Seq<FileSnapshot>, states: Seq<FileState>)
    requires
        states.len() == files.len(),
    ensures
        (missing_paths(files, states).len() == 0 && changed_paths(files, states).len() == 0)
            <==> forall|i: int|
            0 <= i < files.len() ==> #[trigger] states[i] == (FileState::Present {
                len: files[i].size,
                modified: files[i].modified,
            }),
    decreases files.len(),
{
    if files.len() > 0 {
        let d = files.drop_last();
        let n = files.len() - 1;
        law_preflight_clear_iff_unchanged_prefix(files, states, n);
    }
}

proof fn law_preflight_clear_iff_unchanged_prefix(
    files: Seq<FileSnapshot>,
    states: Seq<FileState>,
    n: int,
)
    requires
        states.len() == files.len(),
        0 <= n < files.len(),
        n == files.len() - 1,
    ensures
        (missing_paths(files, states).len() == 0 && changed_paths(files, states).len() == 0)
            <==> forall|i: int|
            0 <= i < files.len() ==> #[trigger] states[i] == (FileState::Present {
                len: files[i].size,
                modified: files[i].modified,
            }),
    decreases files.len(),
{
    let d = files.drop_last();
    let sd = states.take(n);
    assert(missing_paths(d, states) == missing_paths(d, sd)) by {
        lemma_paths_only_prefix(d, states, sd);
    }
    assert(changed_paths(d, states) == changed_paths(d, sd)) by {
        lemma_paths_only_prefix(d, states, sd);
    }
    if n > 0 {
        law_preflight_clear_iff_unchanged_prefix(d, sd, n - 1);
    }
    if forall|i: int|
        0 <= i < files.len() ==> #[trigger] states[i] == (FileState::Present {
            len: files[i].size,
            modified: files[i].modified,
        }) {
        assert forall|i: int| 0 <= i < d.len() implies #[trigger] sd[i] == (FileState::Present {
            len: d[i].size,
            modified: d[i].modified,
        }) by {
            assert(states[i] == (FileState::Present { len: files[i].size, modified: files[i].modified }));
        }
        assert(states[n] == (FileState::Present { len: files[n].size, modified: files[n].modified }));
    }
    if missing_paths(files, states).len() == 0 && changed_paths(files, states).len() == 0 {
        assert forall|i: int| 0 <= i < files.len() implies #[trigger] states[i] == (FileState::Present {
            len: files[i].size,
            modified: files[i].modified,
        }) by {
            if i < n {
                assert(sd[i] == states[i]);
                assert(d[i] == files[i]);
            } else {
                match states[i] {
                    FileState::Present { len, modified } => {},
                    _ => {},
                }
            }
        }
    }
}

proof fn lemma_paths_only_prefix(files: Seq<FileSnapshot>, states: Seq<FileState>, short: Seq<FileState>)
    requires
        short.len() >= files.len(),
        states.len() >= files.len(),
        forall|i: int| 0 <= i < files.len() ==> states[i] == short[i],
    ensures
        missing_paths(files, states) == missing_paths(files, short),
        changed_paths(files, states) == changed_paths(files, short),
    decreases files.len(),
{
    if files.len() > 0 {
        lemma_paths_only_prefix(files.drop_last(), states, short);
    }
}

/// Every planned file is accounted for by a removal run: it is either
/// removed or reported as failed, and the recovered bytes are those of the
/// removed files, all of the plan's bytes when every removal succeeded.
pub proof fn law_outcome_accounts_for_every_file(
    files: Seq<FileSnapshot>,
    results: Seq<Result<(), String>>,
)
    requires
        results.len() == files.len(),
    ensures
        removed_paths(files, results).len() + failed_removals(files, results).len() == files.len(),
        removed_bytes(files, results) <= snapshot_bytes(files),
        (forall|i: int| 0 <= i < results.len() ==> #[trigger] results[i] is Ok) ==> removed_bytes(
            files,
            results,
        ) == snapshot_bytes(files),
    decreases files.len(),
{
    if files.len() > 0 {
        let d = files.drop_last();
        let rd = results.take(d.len() as int);
        lemma_results_only_prefix(d, results, rd);
        law_outcome_accounts_for_every_file(d, rd);
        if forall|i: int| 0 <= i < results.len() ==> #[trigger] results[i] is Ok {
            assert forall|i: int| 0 <= i < rd.len() implies #[trigger] rd[i] is Ok by {
                assert(rd[i] == results[i]);
            }
            assert(results[files.len() - 1] is Ok);
        }
    }
}

proof fn lemma_results_only_prefix(
    files: Seq<FileSnapshot>,
    results: Seq<Result<(), String>>,
    short: Seq<Result<(), String>>,
)
    requires
        short.len() >= files.len(),
        results.len() >= files.len(),
        forall|i: int| 0 <= i < files.len() ==> results[i] == short[i],
    ensures
        removed_paths(files, results) == removed_paths(files, short),
        removed_bytes(files, results) == removed_bytes(files, short),
        failed_removals(files, results) == failed_removals(files, short),
    decreases files.len(),
{
    if files.len() > 0 {
        lemma_results_only_prefix(files.drop_last(), results, short);
    }
}

/// Whether two modification times are equal.
fn same_time(a: Option<Timestamp>, b: Option<Timestamp>) -> (r: bool)
    ensures
        r == (a == b),
{
    match (a, b) {
        (None, None) => true,
        (Some(x), Some(y)) => x.nanos == y.nanos,
        _ => false,
    }
}

} // verus!
