//! Reviewing a result set: toggling files, applying a policy to every
//! group, totals, and carrying a review's choices over to a refreshed scan.
use crate::models::{
    distinct_ids, has_file, lemma_some_file_unselected, path_views, policy_selection, sum_groups, group_selected_bytes,
    group_selected_count, DuplicateFileId, DuplicateGroup, ScanPath, SelectionPolicy,
};
use crate::path::{bytes_equal, copy_bytes};
use crate::scanner::{preferred_paths, FclonesScanner};
use vstd::prelude::*;

verus! {

/// The selection policies offered to the user.
#[derive(Clone, Copy, Debug, PartialEq, Eq, Structural)]
pub enum UiPolicy {
    KeepFirst,
    KeepNewest,
    KeepOldest,
    PreferPreferred,
    Clear,
}

/// The policy a user choice stands for.
pub open spec fn core_policy(p: UiPolicy) -> SelectionPolicy {
    match p {
        UiPolicy::KeepFirst => SelectionPolicy::KeepFirst,
        UiPolicy::KeepNewest => SelectionPolicy::KeepNewest,
        UiPolicy::KeepOldest => SelectionPolicy::KeepOldest,
        UiPolicy::PreferPreferred => SelectionPolicy::PreferPreferredDirectories,
        UiPolicy::Clear => SelectionPolicy::ClearSelection,
    }
}

/// The label shown for a user choice.
pub open spec fn policy_label(p: UiPolicy) -> Seq<char> {
    match p {
        UiPolicy::KeepFirst => "Keep first"@,
        UiPolicy::KeepNewest => "Keep newest"@,
        UiPolicy::KeepOldest => "Keep oldest"@,
        UiPolicy::PreferPreferred => "Prefer preferred directories"@,
        UiPolicy::Clear => "Clear selection"@,
    }
}

impl UiPolicy {
    pub fn selection_policy(self) -> (r: SelectionPolicy)
        ensures
            r == core_policy(self),
    {
        match self {
            UiPolicy::KeepFirst => SelectionPolicy::KeepFirst,
            UiPolicy::KeepNewest => SelectionPolicy::KeepNewest,
            UiPolicy::KeepOldest => SelectionPolicy::KeepOldest,
            UiPolicy::PreferPreferred => SelectionPolicy::PreferPreferredDirectories,
            UiPolicy::Clear => SelectionPolicy::ClearSelection,
        }
    }

    pub fn label(self) -> (r: &'static str)
        ensures
            r@ == policy_label(self),
    {
        match self {
            UiPolicy::KeepFirst => "Keep first",
            UiPolicy::KeepNewest => "Keep newest",
            UiPolicy::KeepOldest => "Keep oldest",
            UiPolicy::PreferPreferred => "Prefer preferred directories",
            UiPolicy::Clear => "Clear selection",
        }
    }
}

/// The choice recorded for each path of a reviewed result set: whether the
/// file at that path was selected. A path recorded twice keeps its later
/// choice.
#[derive(Clone, Debug, PartialEq, Eq)]
pub struct PathSelections {
    pub entries: Vec<(Vec<u8>, bool)>,
}

/// The recorded entries as paths and choices.
pub open spec fn entry_views(entries: Seq<(Vec<u8>, bool)>) -> Seq<(Seq<u8>, bool)> {
    entries.map_values(|e: (Vec<u8>, bool)| (e.0@, e.1))
}

/// The choice recorded for `path`, if any: the last entry for it.
pub open spec fn lookup(entries: Seq<(Seq<u8>, bool)>, path: Seq<u8>) -> Option<bool>
    decreases entries.len(),
{
    if entries.len() == 0 {
        None
    } else if entries.last().0 == path {
        Some(entries.last().1)
    } else {
        lookup(entries.drop_last(), path)
    }
}

/// The recorded choices of one group's files, in order.
pub open spec fn group_entries(g: DuplicateGroup) -> Seq<(Seq<u8>, bool)> {
    g.files@.map_values(|f: crate::models::DuplicateFile| (f.path@, g.selection().contains(f.id.0)))
}

/// The recorded choices of all files, group after group.
pub open spec fn all_entries(groups: Seq<DuplicateGroup>) -> Seq<(Seq<u8>, bool)>
    decreases groups.len(),
{
    if groups.len() == 0 {
        Seq::empty()
    } else {
        all_entries(groups.drop_last()) + group_entries(groups.last())
    }
}

impl PathSelections {
    /// The choice recorded for `path`, if any.
    pub fn get(&self, path: &[u8]) -> (r: Option<bool>)
        ensures
            r == lookup(entry_views(self.entries@), path@),
    {
        let ghost ev = entry_views(self.entries@);
        assert(ev.take(ev.len() as int) =~= ev);
        let mut i: usize = self.entries.len();
        while i > 0
            invariant
                0 <= i <= self.entries@.len(),
                ev == entry_views(self.entries@),
                lookup(ev, path@) == lookup(ev.take(i as int), path@),
            decreases i,
        {
            let ghost t = ev.take(i as int);
            assert(t.drop_last() =~= ev.take(i - 1));
            assert(t.last() == ev[i - 1]);
            if bytes_equal(self.entries[i - 1].0.as_slice(), path) {
                return Some(self.entries[i - 1].1);
            }
            i = i - 1;
        }
        assert(ev.take(0) =~= Seq::<(Seq<u8>, bool)>::empty());
        None
    }

    /// Whether a choice is recorded for `path`.
    pub fn contains(&self, path: &[u8]) -> (r: bool)
        ensures
            r == (lookup(entry_views(self.entries@), path@) is Some),
    {
        self.get(path).is_some()
    }
}

/// Records, for every file of the groups, whether it is selected.
pub fn selection_by_path(groups: &[DuplicateGroup]) -> (r: PathSelections)
    ensures
        entry_views(r.entries@) == all_entries(groups@),
{
    let mut entries: Vec<(Vec<u8>, bool)> = Vec::new();
    let mut i: usize = 0;
    while i < groups.len()
        invariant
            0 <= i <= groups@.len(),
            entry_views(entries@) == all_entries(groups@.take(i as int)),
        decreases groups@.len() - i,
    {
        let g = &groups[i];
        let ghost before = entry_views(entries@);
        assert(groups@.take(i + 1).drop_last() =~= groups@.take(i as int));
        assert(groups@.take(i + 1).last() == groups@[i as int]);
        let mut j: usize = 0;
        while j < g.files.len()
            invariant
                0 <= j <= g.files@.len(),
                entry_views(entries@) == before + group_entries(*g).take(j as int),
            decreases g.files@.len() - j,
        {
            let f = &g.files[j];
            let sel = g.is_selected(f.id);
            let ghost old_entries = entries@;
            entries.push((copy_bytes(f.path.as_slice()), sel));
            assert(entry_views(entries@) =~= entry_views(old_entries).push((f.path@, sel)));
            assert(group_entries(*g)[j as int] == (f.path@, sel));
            assert(group_entries(*g).take(j + 1) =~= group_entries(*g).take(j as int).push(
                (f.path@, sel),
            ));
            assert(entry_views(entries@) =~= before + group_entries(*g).take(j + 1));
            j = j + 1;
        }
        assert(group_entries(*g).take(g.files@.len() as int) =~= group_entries(*g));
        i = i + 1;
    }
    assert(groups@.take(groups@.len() as int) =~= groups@);
    PathSelections { entries }
}

/// Whether some file of the group has a recorded choice.
pub open spec fn has_known_path(g: DuplicateGroup, choices: Seq<(Seq<u8>, bool)>) -> bool {
    exists|i: int| 0 <= i < g.files@.len() && lookup(choices, #[trigger] g.files@[i].path@) is Some
}

/// The ids a refreshed group should select, in file order: a file with a
/// recorded choice follows it, a new file keeps its current state.
pub open spec fn desired_ids(
    files: Seq<crate::models::DuplicateFile>,
    sel: Set<u64>,
    choices: Seq<(Seq<u8>, bool)>,
) -> Seq<u64>
    decreases files.len(),
{
    if files.len() == 0 {
        Seq::empty()
    } else {
        let rest = desired_ids(files.drop_last(), sel, choices);
        let f = files.last();
        let wanted = match lookup(choices, f.path@) {
            Some(b) => b,
            None => sel.contains(f.id.0),
        };
        if wanted {
            rest.push(f.id.0)
        } else {
            rest
        }
    }
}

/// The id of the first file that is not selected, if any.
pub open spec fn first_unselected(files: Seq<crate::models::DuplicateFile>, sel: Set<u64>) -> Option<
    u64,
>
    decreases files.len(),
{
    if files.len() == 0 {
        None
    } else {
        match first_unselected(files.drop_last(), sel) {
            Some(id) => Some(id),
            None => if !sel.contains(files.last().id.0) {
                Some(files.last().id.0)
            } else {
                None
            },
        }
    }
}

/// The id kept back when every file is desired: the group's first
/// unselected file before the refresh, else its first file.
pub open spec fn tie_breaker(g: DuplicateGroup, choices: Seq<(Seq<u8>, bool)>) -> Option<u64> {
    if desired_ids(g.files@, g.selection(), choices).len() == g.files@.len() {
        Some(
            match first_unselected(g.files@, g.selection()) {
                Some(id) => id,
                None => g.files@[0].id.0,
            },
        )
    } else {
        None
    }
}

/// Selecting `ids` in turn from `base` in a group of `n` files, where a
/// selection that would cover every file is skipped.
pub open spec fn select_skipping(n: nat, base: Set<u64>, ids: Seq<u64>) -> Set<u64>
    decreases ids.len(),
{
    if ids.len() == 0 {
        base
    } else {
        let s = select_skipping(n, base, ids.drop_last());
        if s.len() + 1 == n && !s.contains(ids.last()) {
            s
        } else {
            s.insert(ids.last())
        }
    }
}

/// The ids of the group's files.
pub open spec fn id_set(files: Seq<crate::models::DuplicateFile>) -> Set<u64> {
    Set::new(|id: u64| has_file(files, id))
}

/// The ids to select, without the kept-back one.
pub open spec fn restore_targets(g: DuplicateGroup, choices: Seq<(Seq<u8>, bool)>) -> Seq<u64> {
    desired_ids(g.files@, g.selection(), choices).filter(
        |id: u64| tie_breaker(g, choices) != Some(id),
    )
}

/// The selection a group has after its choices are restored.
pub open spec fn restored_selection(g: DuplicateGroup, choices: Seq<(Seq<u8>, bool)>) -> Set<u64> {
    if !has_known_path(g, choices) {
        g.selection()
    } else {
        select_skipping(
            g.files@.len(),
            g.selection().difference(id_set(g.files@)),
            restore_targets(g, choices),
        )
    }
}

/// Carries the choices of an earlier review over to refreshed groups, by
/// path rather than by id (ids change on every scan). A group none of whose
/// paths was reviewed keeps the scanner's default; otherwise each file
/// follows its recorded choice and a new file keeps the scanner's default.
/// When that would select every file, the file the scanner kept (else the
/// first) stays unselected.
pub fn restore_selection_by_path(groups: &mut [DuplicateGroup], selections: &PathSelections)
    ensures
        final(groups)@.len() == old(groups)@.len(),
        forall|i: int|
            0 <= i < old(groups)@.len() ==> {
                &&& (#[trigger] final(groups)@[i]).id == old(groups)@[i].id
                &&& final(groups)@[i].file_size == old(groups)@[i].file_size
                &&& final(groups)@[i].files@ == old(groups)@[i].files@
                &&& final(groups)@[i].selection() == restored_selection(
                    old(groups)@[i],
                    entry_views(selections.entries@),
                )
            },
{
    let ghost choices = entry_views(selections.entries@);
    let mut i: usize = 0;
    while i < groups.len()
        invariant
            0 <= i <= groups@.len(),
            groups@.len() == old(groups)@.len(),
            choices == entry_views(selections.entries@),
            forall|k: int| i <= k < groups@.len() ==> #[trigger] groups@[k] == old(groups)@[k],
            forall|k: int|
                0 <= k < i ==> {
                    &&& (#[trigger] groups@[k]).id == old(groups)@[k].id
                    &&& groups@[k].file_size == old(groups)@[k].file_size
                    &&& groups@[k].files@ == old(groups)@[k].files@
                    &&& groups@[k].selection() == restored_selection(old(groups)@[k], choices)
                },
        decreases groups@.len() - i,
    {
        restore_group(&mut groups[i], selections);
        i = i + 1;
    }
}

fn restore_group(group: &mut DuplicateGroup, selections: &PathSelections)
    ensures
        final(group).id == old(group).id,
        final(group).file_size == old(group).file_size,
        final(group).files@ == old(group).files@,
        final(group).selection() == restored_selection(*old(group), entry_views(selections.entries@)),
{
    let ghost choices = entry_views(selections.entries@);
    let ghost g0 = *group;
    let n = group.files.len();
    // The scanner's default kept copy, and the ids the refresh wants.
    let mut default_kept: Option<u64> = None;
    let mut desired: Vec<u64> = Vec::new();
    let mut known = false;
    let mut j: usize = 0;
    while j < n
        invariant
            0 <= j <= n,
            n == group.files@.len(),
            *group == g0,
            choices == entry_views(selections.entries@),
            default_kept == first_unselected(g0.files@.take(j as int), g0.selection()),
            desired@ == desired_ids(g0.files@.take(j as int), g0.selection(), choices),
            known == exists|k: int|
                0 <= k < j && lookup(choices, #[trigger] g0.files@[k].path@) is Some,
        decreases n - j,
    {
        let f = &group.files[j];
        let ghost t = g0.files@.take(j + 1);
        assert(t.drop_last() =~= g0.files@.take(j as int));
        assert(t.last() == g0.files@[j as int]);
        let selected_now = group.is_selected(f.id);
        if default_kept.is_none() && !selected_now {
            default_kept = Some(f.id.0);
        }
        let wanted = match selections.get(f.path.as_slice()) {
            Some(b) => {
                known = true;
                b
            },
            None => selected_now,
        };
        if wanted {
            desired.push(f.id.0);
        }
        j = j + 1;
    }
    assert(g0.files@.take(n as int) =~= g0.files@);
    if !known {
        return ;
    }
    // Clear every file of the group.
    let mut j: usize = 0;
    while j < n
        invariant
            0 <= j <= n,
            n == group.files@.len(),
            group.id == g0.id,
            group.file_size == g0.file_size,
            group.files@ == g0.files@,
            group.selection() == g0.selection().difference(
                Set::new(|id: u64| exists|k: int| 0 <= k < j && #[trigger] g0.files@[k].id.0 == id),
            ),
        decreases n - j,
    {
        let id = group.files[j].id;
        let ghost before = group.selection();
        proof {
            assert(has_file(group.files@, id.0));
        }
        let _ = group.set_selected(id, false);
        assert(group.selection() =~= g0.selection().difference(
            Set::new(|x: u64| exists|k: int| 0 <= k < j + 1 && #[trigger] g0.files@[k].id.0 == x),
        )) by {
            assert forall|x: u64| #[trigger] group.selection().contains(x) == g0.selection().difference(
                Set::new(|y: u64| exists|k: int| 0 <= k < j + 1 && #[trigger] g0.files@[k].id.0 == y),
            ).contains(x) by {
                if exists|k: int| 0 <= k < j + 1 && #[trigger] g0.files@[k].id.0 == x {
                    let k = choose|k: int| 0 <= k < j + 1 && #[trigger] g0.files@[k].id.0 == x;
                    if k < j {
                    }
                }
            }
        }
        j = j + 1;
    }
    assert(Set::new(|id: u64| exists|k: int| 0 <= k < n && #[trigger] g0.files@[k].id.0 == id)
        =~= id_set(g0.files@));
    let keep: Option<u64> = if desired.len() == n {
        match default_kept {
            Some(id) => Some(id),
            None => Some(group.files[0].id.0),
        }
    } else {
        None
    };
    assert(keep == tie_breaker(g0, choices));
    proof {
        lemma_desired_in_files(g0.files@, g0.selection(), choices);
    }
    let ghost targets = restore_targets(g0, choices);
    let ghost want = desired@;
    let ghost base = group.selection();
    let mut k: usize = 0;
    let ghost mut done: Seq<u64> = Seq::empty();
    while k < desired.len()
        invariant
            0 <= k <= desired@.len(),
            want == desired@,
            n == group.files@.len(),
            group.id == g0.id,
            group.file_size == g0.file_size,
            group.files@ == g0.files@,
            want == desired_ids(g0.files@, g0.selection(), choices),
            keep == tie_breaker(g0, choices),
            done == want.take(k as int).filter(|id: u64| keep != Some(id)),
            group.selection() == select_skipping(n as nat, base, done),
            forall|m: int| 0 <= m < want.len() ==> has_file(g0.files@, #[trigger] want[m]),
        decreases desired@.len() - k,
    {
        let id = desired[k];
        proof {
            reveal_with_fuel(Seq::filter, 1);
            assert(want.take(k + 1).drop_last() =~= want.take(k as int));
        }
        let skip = match keep {
            Some(x) => x == id,
            None => false,
        };
        if !skip {
            let ghost before = group.selection();
            let _ = group.set_selected(DuplicateFileId(id), true);
            proof {
                assert(done.push(id).drop_last() =~= done);
                done = done.push(id);
            }
        }
        k = k + 1;
    }
    proof {
        assert(want.take(want.len() as int) =~= want);
    }
}

/// The index of the first group holding a file with id `id`, or the number
/// of groups when none does.
pub open spec fn group_of(groups: Seq<DuplicateGroup>, id: u64) -> int
    decreases groups.len(),
{
    if groups.len() == 0 {
        0
    } else {
        let j = group_of(groups.drop_last(), id);
        if j < groups.len() - 1 {
            j
        } else if has_file(groups.last().files@, id) {
            groups.len() - 1
        } else {
            groups.len() as int
        }
    }
}

/// A group's selection after toggling `id`: a selected id is cleared; an
/// unselected one is selected unless that would select every file.
pub open spec fn toggled(g: DuplicateGroup, id: u64) -> Set<u64> {
    if g.selection().contains(id) {
        g.selection().remove(id)
    } else if g.selection().len() + 1 == g.files@.len() {
        g.selection()
    } else {
        g.selection().insert(id)
    }
}

proof fn lemma_group_of(groups: Seq<DuplicateGroup>, id: u64, n: int)
    requires
        0 <= n <= groups.len(),
        group_of(groups.take(n), id) == n,
    ensures
        n < groups.len() && has_file(groups[n].files@, id) ==> group_of(groups, id) == n,
        n < groups.len() && !has_file(groups[n].files@, id) ==> group_of(groups.take(n + 1), id)
            == n + 1,
        n == groups.len() ==> group_of(groups, id) == n,
    decreases groups.len() - n,
{
    if n < groups.len() {
        assert(groups.take(n + 1).drop_last() =~= groups.take(n));
        assert(groups.take(n + 1).last() == groups[n]);
        if has_file(groups[n].files@, id) {
            lemma_group_of_stable(groups, id, n + 1);
        }
    } else {
        assert(groups.take(n) =~= groups);
    }
}

proof fn lemma_group_of_stable(groups: Seq<DuplicateGroup>, id: u64, n: int)
    requires
        1 <= n <= groups.len(),
        group_of(groups.take(n), id) < n,
    ensures
        group_of(groups, id) == group_of(groups.take(n), id),
    decreases groups.len() - n,
{
    if n < groups.len() {
        assert(groups.take(n + 1).drop_last() =~= groups.take(n));
        lemma_group_of_stable(groups, id, n + 1);
    } else {
        assert(groups.take(n) =~= groups);
    }
}

/// Toggles the file with id `id` in the first group that holds it. A
/// toggle that would select every file of its group is ignored.
pub fn toggle_file(groups: &mut [DuplicateGroup], id: DuplicateFileId)
    ensures
        final(groups)@.len() == old(groups)@.len(),
        forall|i: int|
            0 <= i < old(groups)@.len() && i != group_of(old(groups)@, id.0) ==> (#[trigger] final(groups)@[i]) == old(groups)@[i],
        group_of(old(groups)@, id.0) < old(groups)@.len() ==> {
            let k = group_of(old(groups)@, id.0);
            &&& final(groups)@[k].id == old(groups)@[k].id
            &&& final(groups)@[k].file_size == old(groups)@[k].file_size
            &&& final(groups)@[k].files@ == old(groups)@[k].files@
            &&& final(groups)@[k].selection() == toggled(old(groups)@[k], id.0)
        },
{
    let mut i: usize = 0;
    while i < groups.len()
        invariant
            0 <= i <= groups@.len(),
            groups@ == old(groups)@,
            group_of(groups@.take(i as int), id.0) == i,
        decreases groups@.len() - i,
    {
        let mut found = false;
        let mut j: usize = 0;
        while j < groups[i].files.len()
            invariant
                0 <= j <= groups@[i as int].files@.len(),
                i < groups@.len(),
                found == exists|k: int| 0 <= k < j && #[trigger] groups@[i as int].files@[k].id.0 == id.0,
            decreases groups@[i as int].files@.len() - j,
        {
            if groups[i].files[j].id.0 == id.0 {
                found = true;
            }
            j = j + 1;
        }
        proof {
            lemma_group_of(groups@, id.0, i as int);
        }
        if found {
            let now = groups[i].is_selected(id);
            let _ = groups[i].set_selected(id, !now);
            return ;
        }
        i = i + 1;
    }
    proof {
        lemma_group_of(groups@, id.0, i as int);
    }
}

/// Applies a policy to every group, with the preferred roots among
/// `preferred` as the preferred directories.
pub fn apply_policy(groups: &mut [DuplicateGroup], policy: UiPolicy, preferred: &[ScanPath])
    ensures
        final(groups)@.len() == old(groups)@.len(),
        forall|i: int|
            0 <= i < old(groups)@.len() ==> {
                &&& (#[trigger] final(groups)@[i]).id == old(groups)@[i].id
                &&& final(groups)@[i].file_size == old(groups)@[i].file_size
                &&& final(groups)@[i].files@ == old(groups)@[i].files@
                &&& final(groups)@[i].selection() == policy_selection(
                    old(groups)@[i].files@,
                    core_policy(policy),
                    preferred_paths(preferred@),
                )
            },
{
    let roots = FclonesScanner::preferred_roots(preferred);
    let p = policy.selection_policy();
    let mut i: usize = 0;
    while i < groups.len()
        invariant
            0 <= i <= groups@.len(),
            groups@.len() == old(groups)@.len(),
            p == core_policy(policy),
            path_views(roots@) == preferred_paths(preferred@),
            forall|k: int| i <= k < groups@.len() ==> #[trigger] groups@[k] == old(groups)@[k],
            forall|k: int|
                0 <= k < i ==> {
                    &&& (#[trigger] groups@[k]).id == old(groups)@[k].id
                    &&& groups@[k].file_size == old(groups)@[k].file_size
                    &&& groups@[k].files@ == old(groups)@[k].files@
                    &&& groups@[k].selection() == policy_selection(
                        old(groups)@[k].files@,
                        core_policy(policy),
                        preferred_paths(preferred@),
                    )
                },
        decreases groups@.len() - i,
    {
        groups[i].apply_selection(p, roots.as_slice());
        i = i + 1;
    }
}

/// The number of selected files and the bytes they hold, over all groups.
pub fn totals(groups: &[DuplicateGroup]) -> (r: (usize, u64))
    requires
        sum_groups(groups@, |g: DuplicateGroup| group_selected_count(g)) <= usize::MAX,
        sum_groups(groups@, |g: DuplicateGroup| group_selected_bytes(g)) <= u64::MAX,
    ensures
        r.0 == sum_groups(groups@, |g: DuplicateGroup| group_selected_count(g)),
        r.1 == sum_groups(groups@, |g: DuplicateGroup| group_selected_bytes(g)),
{
    let ghost fc = |g: DuplicateGroup| group_selected_count(g);
    let ghost fb = |g: DuplicateGroup| group_selected_bytes(g);
    let mut count: usize = 0;
    let mut bytes: u64 = 0;
    let mut i: usize = 0;
    while i < groups.len()
        invariant
            0 <= i <= groups@.len(),
            fc == (|g: DuplicateGroup| group_selected_count(g)),
            fb == (|g: DuplicateGroup| group_selected_bytes(g)),
            sum_groups(groups@, fc) <= usize::MAX,
            sum_groups(groups@, fb) <= u64::MAX,
            count == sum_groups(groups@.take(i as int), fc),
            bytes == sum_groups(groups@.take(i as int), fb),
        decreases groups@.len() - i,
    {
        proof {
            crate::models::lemma_sum_groups_prefix(groups@, fc, i as int);
            crate::models::lemma_sum_groups_prefix(groups@, fb, i as int);
        }
        count = count + groups[i].selected_ids().len();
        bytes = bytes + groups[i].selected_bytes();
        i = i + 1;
    }
    assert(groups@.take(groups@.len() as int) =~= groups@);
    (count, bytes)
}

proof fn lemma_select_skipping_bounded(n: nat, base: Set<u64>, ids: Seq<u64>)
    requires
        base.finite(),
        base.len() < n,
    ensures
        select_skipping(n, base, ids).finite(),
        select_skipping(n, base, ids).len() < n,
        forall|x: u64| #[trigger] select_skipping(n, base, ids).contains(x) ==> base.contains(x) || ids.contains(x),
    decreases ids.len(),
{
    if ids.len() > 0 {
        let d = ids.drop_last();
        lemma_select_skipping_bounded(n, base, d);
        assert forall|x: u64| #[trigger] select_skipping(n, base, ids).contains(x) implies base.contains(x) || ids.contains(x) by {
            if select_skipping(n, base, d).contains(x) && !base.contains(x) {
                let j = choose|j: int| 0 <= j < d.len() && d[j] == x;
                assert(ids[j] == x);
            }
            if x == ids.last() {
                assert(ids[ids.len() - 1] == x);
            }
        }
    }
}

/// Toggling a file never selects every copy: a well-formed group whose
/// files have distinct ids stays well-formed and keeps a file unselected.
pub proof fn law_toggle_keeps_a_copy(g: DuplicateGroup, id: u64)
    requires
        g.well_formed(),
        distinct_ids(g.files@),
        has_file(g.files@, id),
    ensures
        toggled(g, id).finite(),
        toggled(g, id).len() < g.files@.len(),
        exists|i: int| 0 <= i < g.files@.len() && !toggled(g, id).contains(#[trigger] g.files@[i].id.0),
{
    lemma_some_file_unselected(g.files@, toggled(g, id));
}

/// Toggling a file twice gives back the selection the group started with,
/// unless the first toggle was refused (it would have selected every copy).
pub proof fn law_toggle_twice_restores(g: DuplicateGroup, h: DuplicateGroup, id: u64)
    requires
        g.well_formed(),
        h.files@ == g.files@,
        h.selection() == toggled(g, id),
        toggled(g, id) != g.selection(),
    ensures
        toggled(h, id) == g.selection(),
{
    let s = g.selection();
    if s.contains(id) {
        assert(s.remove(id).len() == s.len() - 1);
        assert(s.remove(id).insert(id) =~= s);
    } else {
        assert(s.insert(id).remove(id) =~= s);
    }
}

/// Selecting ids in turn never skips one while the ids and the base make up
/// fewer than `n` ids in all.
proof fn lemma_select_skipping_all(n: nat, base: Set<u64>, ids: Seq<u64>)
    requires
        base.finite(),
        base.union(ids.to_set()).len() < n,
    ensures
        select_skipping(n, base, ids) == base.union(ids.to_set()),
    decreases ids.len(),
{
    broadcast use vstd::seq_lib::seq_to_set_is_finite;
    if ids.len() == 0 {
        assert(ids.to_set() =~= Set::<u64>::empty());
        assert(base.union(ids.to_set()) =~= base);
    } else {
        let d = ids.drop_last();
        let x = ids.last();
        let whole = base.union(ids.to_set());
        let part = base.union(d.to_set());
        assert(ids.to_set() =~= d.to_set().insert(x)) by {
            assert forall|y: u64| ids.to_set().contains(y) <==> d.to_set().insert(x).contains(y) by {
                if ids.to_set().contains(y) && y != x {
                    let j = choose|j: int| 0 <= j < ids.len() && ids[j] == y;
                    assert(d[j] == y);
                }
                if d.to_set().contains(y) {
                    let j = choose|j: int| 0 <= j < d.len() && d[j] == y;
                    assert(ids[j] == y);
                }
                if y == x {
                    assert(ids[ids.len() - 1] == y);
                }
            }
        }
        assert(whole =~= part.insert(x));
        assert(part.subset_of(whole));
        vstd::set_lib::lemma_len_subset(part, whole);
        lemma_select_skipping_all(n, base, d);
        if !part.contains(x) {
            assert(part.insert(x).len() == part.len() + 1);
        } else {
            assert(part.insert(x) =~= part);
        }
    }
}

/// The ids of a group's files are no more than its files.
proof fn lemma_id_set_size(files: Seq<crate::models::DuplicateFile>)
    ensures
        id_set(files).finite(),
        id_set(files).len() <= files.len(),
{
    let ids = files.map_values(|f: crate::models::DuplicateFile| f.id.0);
    assert(id_set(files) =~= ids.to_set()) by {
        assert forall|x: u64| id_set(files).contains(x) <==> ids.to_set().contains(x) by {
            if has_file(files, x) {
                let i = choose|i: int| 0 <= i < files.len() && #[trigger] files[i].id.0 == x;
                assert(ids[i] == x);
            }
            if ids.to_set().contains(x) {
                let i = choose|i: int| 0 <= i < ids.len() && ids[i] == x;
                assert(files[i].id.0 == x);
            }
        }
    }
    vstd::seq_lib::seq_to_set_is_finite(ids);
    ids.lemma_cardinality_of_set();
}

/// Carrying choices over to a refreshed scan restores them: in a group
/// with a reviewed path, each file follows its recorded choice and a new
/// file keeps the scanner's choice; only when that would select every file
/// is the kept-back file (the scanner's kept copy, else the first) left
/// unselected.
pub proof fn law_restore_follows_choices(g: DuplicateGroup, choices: Seq<(Seq<u8>, bool)>)
    requires
        g.well_formed(),
        has_known_path(g, choices),
    ensures
        restored_selection(g, choices) == match tie_breaker(g, choices) {
            Some(t) => desired_ids(g.files@, g.selection(), choices).to_set().remove(t),
            None => desired_ids(g.files@, g.selection(), choices).to_set(),
        },
        tie_breaker(g, choices) is Some <==> desired_ids(g.files@, g.selection(), choices).len()
            == g.files@.len(),
{
    broadcast use vstd::seq_lib::seq_to_set_is_finite;
    let files = g.files@;
    let d = desired_ids(files, g.selection(), choices);
    let t = restore_targets(g, choices);
    let tie = tie_breaker(g, choices);
    let base = g.selection().difference(id_set(files));
    assert(base =~= Set::<u64>::empty());
    lemma_desired_in_files(files, g.selection(), choices);
    let pred = |id: u64| tie != Some(id);
    assert(t.to_set() =~= match tie {
        Some(x) => d.to_set().remove(x),
        None => d.to_set(),
    }) by {
        assert forall|y: u64| t.to_set().contains(y) <==> (match tie {
            Some(x) => d.to_set().remove(x),
            None => d.to_set(),
        }).contains(y) by {
            if t.to_set().contains(y) {
                let j = choose|j: int| 0 <= j < t.len() && t[j] == y;
                d.lemma_filter_contains_rev(pred, y);
                d.filter_lemma(pred);
            }
            if d.to_set().contains(y) && pred(y) {
                let j = choose|j: int| 0 <= j < d.len() && d[j] == y;
                d.filter_lemma(pred);
                d.lemma_filter_contains(pred, j);
            }
        }
    }
    assert(base.union(t.to_set()) =~= t.to_set());
    lemma_id_set_size(files);
    assert(d.to_set().subset_of(id_set(files))) by {
        assert forall|y: u64| d.to_set().contains(y) implies id_set(files).contains(y) by {
            let j = choose|j: int| 0 <= j < d.len() && d[j] == y;
        }
    }
    match tie {
        Some(x) => {
            assert(id_set(files).contains(x)) by {
                match first_unselected(files, g.selection()) {
                    Some(id) => lemma_first_unselected_in(files, g.selection()),
                    None => assert(files[0].id.0 == x),
                }
            }
            assert(t.to_set().subset_of(id_set(files).remove(x)));
            vstd::set_lib::lemma_len_subset(t.to_set(), id_set(files).remove(x));
        },
        None => {
            d.lemma_cardinality_of_set();
        },
    }
    lemma_select_skipping_all(files.len(), base, t);
}

/// No two recorded entries are for the same path.
pub open spec fn distinct_paths(entries: Seq<(Seq<u8>, bool)>) -> bool {
    forall|a: int, b: int| 0 <= a < entries.len() && 0 <= b < entries.len() && a != b ==> entries[a].0 != entries[b].0
}

proof fn lemma_lookup_distinct(entries: Seq<(Seq<u8>, bool)>, j: int)
    requires
        distinct_paths(entries),
        0 <= j < entries.len(),
    ensures
        lookup(entries, entries[j].0) == Some(entries[j].1),
    decreases entries.len(),
{
    if j < entries.len() - 1 {
        let d = entries.drop_last();
        assert(entries.last() == entries[entries.len() - 1]);
        assert(distinct_paths(d));
        lemma_lookup_distinct(d, j);
        assert(d[j] == entries[j]);
    }
}

/// Where the entries of group `i` begin, and that they are its entries.
proof fn lemma_entry_of(groups: Seq<DuplicateGroup>, i: int, k: int)
    requires
        0 <= i < groups.len(),
        0 <= k < groups[i].files@.len(),
    ensures
        all_entries(groups.take(i)).len() + groups[i].files@.len() <= all_entries(groups).len(),
        all_entries(groups)[all_entries(groups.take(i)).len() + k] == group_entries(groups[i])[k],
    decreases groups.len(),
{
    let d = groups.drop_last();
    let a = all_entries(d);
    assert(all_entries(groups) == a + group_entries(groups.last()));
    if i == groups.len() - 1 {
        assert(groups.take(i) =~= d);
    } else {
        assert(d.take(i) =~= groups.take(i));
        assert(d[i] == groups[i]);
        lemma_entry_of(d, i, k);
    }
}

/// With every file's choice recorded, the desired ids are the selected
/// files' ids.
proof fn lemma_desired_when_known(
    files: Seq<crate::models::DuplicateFile>,
    sel: Set<u64>,
    choices: Seq<(Seq<u8>, bool)>,
)
    requires
        forall|k: int|
            0 <= k < files.len() ==> lookup(choices, #[trigger] files[k].path@) == Some(
                sel.contains(files[k].id.0),
            ),
    ensures
        desired_ids(files, sel, choices).to_set() == sel.intersect(id_set(files)),
        desired_ids(files, sel, choices).len() == files.len() ==> forall|k: int|
            0 <= k < files.len() ==> sel.contains(#[trigger] files[k].id.0),
        desired_ids(files, sel, choices).len() <= files.len(),
    decreases files.len(),
{
    if files.len() > 0 {
        let d = files.drop_last();
        assert forall|k: int| 0 <= k < d.len() implies lookup(choices, #[trigger] d[k].path@) == Some(
            sel.contains(d[k].id.0),
        ) by {
            assert(d[k] == files[k]);
        }
        lemma_desired_when_known(d, sel, choices);
        let f = files.last();
        assert(lookup(choices, files[files.len() - 1].path@) == Some(sel.contains(f.id.0)));
        let ds = desired_ids(files, sel, choices);
        let dd = desired_ids(d, sel, choices);
        assert(ds.to_set() =~= sel.intersect(id_set(files))) by {
            assert forall|y: u64| ds.to_set().contains(y) <==> sel.intersect(id_set(files)).contains(y) by {
                if ds.to_set().contains(y) {
                    let j = choose|j: int| 0 <= j < ds.len() && ds[j] == y;
                    if j < dd.len() {
                        assert(dd[j] == y);
                        assert(dd.to_set().contains(y));
                        let i = choose|i: int| 0 <= i < d.len() && #[trigger] d[i].id.0 == y;
                        assert(files[i].id.0 == y);
                    } else {
                        assert(files[files.len() - 1].id.0 == y);
                    }
                }
                if sel.intersect(id_set(files)).contains(y) {
                    let i = choose|i: int| 0 <= i < files.len() && #[trigger] files[i].id.0 == y;
                    if i < files.len() - 1 {
                        assert(d[i].id.0 == y);
                        assert(sel.intersect(id_set(d)).contains(y));
                        assert(dd.to_set().contains(y));
                        let j = choose|j: int| 0 <= j < dd.len() && dd[j] == y;
                        assert(ds[j] == y);
                    } else {
                        assert(ds[ds.len() - 1] == y);
                    }
                }
            }
        }
        if ds.len() == files.len() {
            assert(sel.contains(f.id.0));
            assert(dd.len() == d.len());
            assert forall|k: int| 0 <= k < files.len() implies sel.contains(#[trigger] files[k].id.0) by {
                if k < d.len() {
                    assert(sel.contains(d[k].id.0));
                }
            }
        }
    }
}

/// Recording the choices of reviewed groups and restoring them to the same
/// groups changes nothing, when no path appears twice among the groups.
pub proof fn law_choices_round_trip(groups: Seq<DuplicateGroup>, i: int)
    requires
        0 <= i < groups.len(),
        groups[i].well_formed(),
        distinct_ids(groups[i].files@),
        distinct_paths(all_entries(groups)),
    ensures
        restored_selection(groups[i], all_entries(groups)) == groups[i].selection(),
{
    let g = groups[i];
    let files = g.files@;
    let e = all_entries(groups);
    let off = all_entries(groups.take(i)).len();
    assert forall|k: int| 0 <= k < files.len() implies lookup(e, #[trigger] files[k].path@) == Some(
        g.selection().contains(files[k].id.0),
    ) by {
        lemma_entry_of(groups, i, k);
        lemma_lookup_distinct(e, off + k);
    }
    lemma_desired_when_known(files, g.selection(), e);
    assert(lookup(e, files[0].path@) is Some);
    assert(has_known_path(g, e));
    let d = desired_ids(files, g.selection(), e);
    if d.len() == files.len() {
        let ids = files.map_values(|f: crate::models::DuplicateFile| f.id.0);
        assert(ids.no_duplicates());
        ids.unique_seq_to_set();
        assert(ids.to_set().subset_of(g.selection())) by {
            assert forall|y: u64| ids.to_set().contains(y) implies g.selection().contains(y) by {
                let j = choose|j: int| 0 <= j < ids.len() && ids[j] == y;
                assert(files[j].id.0 == y);
            }
        }
        vstd::set_lib::lemma_len_subset(ids.to_set(), g.selection());
        assert(false);
    }
    law_restore_follows_choices(g, e);
    assert(g.selection().intersect(id_set(files)) =~= g.selection());
}

proof fn lemma_first_unselected_in(files: Seq<crate::models::DuplicateFile>, sel: Set<u64>)
    ensures
        first_unselected(files, sel) matches Some(id) ==> has_file(files, id),
    decreases files.len(),
{
    if files.len() > 0 {
        let d = files.drop_last();
        lemma_first_unselected_in(d, sel);
        if let Some(id) = first_unselected(d, sel) {
            let i = choose|i: int| 0 <= i < d.len() && #[trigger] d[i].id.0 == id;
            assert(files[i].id.0 == id);
        } else if !sel.contains(files.last().id.0) {
            assert(files[files.len() - 1].id.0 == files.last().id.0);
        }
    }
}

/// Carrying choices over to a refreshed scan never selects every copy: a
/// well-formed group whose files have distinct ids keeps a file unselected,
/// even when files from different reviewed groups were regrouped together.
pub proof fn law_restore_keeps_a_copy(g: DuplicateGroup, choices: Seq<(Seq<u8>, bool)>)
    requires
        g.well_formed(),
        distinct_ids(g.files@),
    ensures
        restored_selection(g, choices).finite(),
        restored_selection(g, choices).len() < g.files@.len(),
        forall|x: u64| #[trigger] restored_selection(g, choices).contains(x) ==> has_file(g.files@, x),
        exists|i: int|
            0 <= i < g.files@.len() && !restored_selection(g, choices).contains(
                #[trigger] g.files@[i].id.0,
            ),
{
    if has_known_path(g, choices) {
        let base = g.selection().difference(id_set(g.files@));
        assert(base =~= Set::<u64>::empty());
        lemma_desired_in_files(g.files@, g.selection(), choices);
        lemma_select_skipping_bounded(g.files@.len(), base, restore_targets(g, choices));
        assert forall|x: u64| #[trigger] restored_selection(g, choices).contains(x) implies has_file(g.files@, x) by {
            let t = restore_targets(g, choices);
            let d = desired_ids(g.files@, g.selection(), choices);
            if t.contains(x) {
                let j = choose|j: int| 0 <= j < t.len() && t[j] == x;
                d.lemma_filter_contains_rev(|id: u64| tie_breaker(g, choices) != Some(id), x);
                let m = choose|m: int| 0 <= m < d.len() && d[m] == x;
                assert(has_file(g.files@, d[m]));
            }
        }
    }
    lemma_some_file_unselected(g.files@, restored_selection(g, choices));
}

proof fn lemma_desired_in_files(
    files: Seq<crate::models::DuplicateFile>,
    sel: Set<u64>,
    choices: Seq<(Seq<u8>, bool)>,
)
    ensures
        forall|m: int|
            0 <= m < desired_ids(files, sel, choices).len() ==> has_file(
                files,
                #[trigger] desired_ids(files, sel, choices)[m],
            ),
        desired_ids(files, sel, choices).len() <= files.len(),
    decreases files.len(),
{
    if files.len() > 0 {
        let d = files.drop_last();
        lemma_desired_in_files(d, sel, choices);
        let ds = desired_ids(files, sel, choices);
        assert forall|m: int| 0 <= m < ds.len() implies has_file(files, #[trigger] ds[m]) by {
            if m < desired_ids(d, sel, choices).len() {
                assert(ds[m] == desired_ids(d, sel, choices)[m]);
                let i = choose|i: int| 0 <= i < d.len() && #[trigger] d[i].id.0 == ds[m];
                assert(files[i] == d[i]);
            } else {
                assert(files[files.len() - 1].id.0 == ds[m]);
            }
        }
    }
}

/// Whether the file's recorded choice (or, with none, its current state)
/// asks for it to be selected.
spec fn asks_selected(f: crate::models::DuplicateFile, sel: Set<u64>, choices: Seq<(Seq<u8>, bool)>) -> bool {
    match lookup(choices, f.path@) {
        Some(b) => b,
        None => sel.contains(f.id.0),
    }
}

proof fn lemma_desired_member(
    files: Seq<crate::models::DuplicateFile>,
    sel: Set<u64>,
    choices: Seq<(Seq<u8>, bool)>,
)
    requires
        distinct_ids(files),
    ensures
        forall|k: int|
            0 <= k < files.len() ==> desired_ids(files, sel, choices).contains(#[trigger] files[k].id.0)
                == asks_selected(files[k], sel, choices),
        desired_ids(files, sel, choices).len() == files.len() ==> forall|k: int|
            0 <= k < files.len() ==> asks_selected(#[trigger] files[k], sel, choices),
    decreases files.len(),
{
    if files.len() > 0 {
        let n = files.len();
        let d = files.drop_last();
        assert(distinct_ids(d)) by {
            assert forall|i: int, j: int| 0 <= i < d.len() && 0 <= j < d.len() && i != j implies d[i].id.0 != d[j].id.0 by {
                assert(d[i] == files[i] && d[j] == files[j]);
            }
        }
        lemma_desired_member(d, sel, choices);
        lemma_desired_in_files(d, sel, choices);
        let dd = desired_ids(d, sel, choices);
        let ds = desired_ids(files, sel, choices);
        let last = files[n - 1];
        assert(files.last() == last);
        assert(!dd.contains(last.id.0)) by {
            if dd.contains(last.id.0) {
                let m = choose|m: int| 0 <= m < dd.len() && dd[m] == last.id.0;
                assert(has_file(d, dd[m]));
                let i = choose|i: int| 0 <= i < d.len() && #[trigger] d[i].id.0 == dd[m];
                assert(files[i] == d[i]);
            }
        }
        assert forall|k: int| 0 <= k < n implies ds.contains(#[trigger] files[k].id.0) == asks_selected(files[k], sel, choices) by {
            if asks_selected(last, sel, choices) {
                assert(ds == dd.push(last.id.0));
            } else {
                assert(ds == dd);
            }
            if k < n - 1 {
                assert(d[k] == files[k]);
                assert(files[k].id.0 != last.id.0);
                if asks_selected(last, sel, choices) {
                    if ds.contains(files[k].id.0) {
                        let m = choose|m: int| 0 <= m < ds.len() && ds[m] == files[k].id.0;
                        if m < dd.len() {
                            assert(dd[m] == ds[m]);
                        }
                    }
                    if dd.contains(files[k].id.0) {
                        let m = choose|m: int| 0 <= m < dd.len() && dd[m] == files[k].id.0;
                        assert(ds[m] == dd[m]);
                    }
                }
            } else {
                if asks_selected(last, sel, choices) {
                    assert(ds[ds.len() - 1] == last.id.0);
                }
            }
        }
        if ds.len() == n {
            assert(asks_selected(last, sel, choices));
            assert(dd.len() == n - 1);
            assert forall|k: int| 0 <= k < n implies asks_selected(#[trigger] files[k], sel, choices) by {
                if k < n - 1 {
                    assert(d[k] == files[k]);
                }
            }
        }
    }
}

/// Restoring choices by path treats each file of a refreshed group by what
/// was recorded for its path: a file recorded as kept stays unselected; a
/// file whose path was never reviewed (a new file) is selected only if the
/// scanner had selected it; and a file recorded as selected, or a new file
/// the scanner selected, is selected unless it is the one copy left
/// unselected because every other file of the group is selected.
pub proof fn law_restore_by_recorded_choice(
    g: DuplicateGroup,
    choices: Seq<(Seq<u8>, bool)>,
    i: int,
)
    requires
        g.well_formed(),
        distinct_ids(g.files@),
        0 <= i < g.files@.len(),
    ensures
        ({
            let f = g.files@[i];
            let r = restored_selection(g, choices);
            &&& lookup(choices, f.path@) == Some(false) ==> !r.contains(f.id.0)
            &&& lookup(choices, f.path@) is None ==> (r.contains(f.id.0) ==> g.selection().contains(
                f.id.0,
            ))
            &&& (lookup(choices, f.path@) == Some(true) || (lookup(choices, f.path@) is None
                && g.selection().contains(f.id.0))) ==> (r.contains(f.id.0) || forall|j: int|
                0 <= j < g.files@.len() && j != i ==> r.contains(#[trigger] g.files@[j].id.0))
        }),
{
    let files = g.files@;
    let f = files[i];
    let sel = g.selection();
    if has_known_path(g, choices) {
        law_restore_follows_choices(g, choices);
        lemma_desired_member(files, sel, choices);
        let d = desired_ids(files, sel, choices);
        assert(d.contains(f.id.0) == asks_selected(f, sel, choices));
        match tie_breaker(g, choices) {
            Some(t) => {
                assert(d.len() == files.len());
                assert forall|j: int| 0 <= j < files.len() && j != i && t == f.id.0 implies restored_selection(g, choices).contains(#[trigger] files[j].id.0) by {
                    assert(asks_selected(files[j], sel, choices));
                    assert(d.contains(files[j].id.0));
                    assert(files[j].id.0 != files[i].id.0);
                }
            },
            None => {},
        }
    } else {
        if lookup(choices, f.path@) is Some {
            assert(has_known_path(g, choices));
        }
    }
}

} // verus!
