//! Duplicate groups, their cleanup selection, and scan results.
//!
//! A group's selection is the set of file ids marked for removal. The
//! selection API never lets every file of a group be selected: one copy of
//! the content is always kept.
use crate::path::{path_starts_with, starts_with};
use std::collections::BTreeSet;
use vstd::prelude::*;

verus! {

broadcast use vstd::laws_cmp::group_laws_cmp;

/// A point in time, in nanoseconds since the Unix epoch (negative before it).
#[derive(Clone, Copy, Debug, PartialEq, Eq, Structural)]
pub struct Timestamp {
    pub nanos: i128,
}

#[derive(Clone, Copy, Debug, PartialEq, Eq, PartialOrd, Ord, Hash, Structural)]
pub struct GroupId(pub u64);

#[derive(Clone, Copy, Debug, PartialEq, Eq, PartialOrd, Ord, Hash, Structural)]
pub struct DuplicateFileId(pub u64);

/// A directory to scan; files under a preferred directory are the copies
/// that the default selection keeps.
#[derive(Clone, Debug, PartialEq, Eq)]
pub struct ScanPath {
    pub path: Vec<u8>,
    pub preferred: bool,
}

#[derive(Clone, Debug, PartialEq, Eq)]
pub struct ScanConfig {
    pub paths: Vec<ScanPath>,
    pub min_size: Option<u64>,
    pub max_size: Option<u64>,
    pub cache: bool,
}

impl Default for ScanConfig {
    fn default() -> (r: Self)
        ensures
            r.paths@.len() == 0,
            r.min_size == Some(1u64),
            r.max_size.is_none(),
            r.cache,
    {
        ScanConfig { paths: Vec::new(), min_size: Some(1), max_size: None, cache: true }
    }
}

#[derive(Clone, Debug, PartialEq, Eq)]
pub struct DuplicateFile {
    pub id: DuplicateFileId,
    pub path: Vec<u8>,
    pub size: u64,
    pub modified: Option<Timestamp>,
}

#[derive(Clone, Debug, PartialEq, Eq)]
pub struct DuplicateGroup {
    pub id: GroupId,
    pub file_size: u64,
    pub files: Vec<DuplicateFile>,
    pub selected: Selection,
}

/// The ids of a group's files that are marked for removal. Only the methods
/// of [`DuplicateGroup`] change it.
#[derive(Clone, Debug, PartialEq, Eq)]
pub struct Selection {
    ids: BTreeSet<u64>,
}

impl View for Selection {
    type V = Set<u64>;

    closed spec fn view(&self) -> Set<u64> {
        self.ids@
    }
}

#[derive(Clone, Copy, Debug, PartialEq, Eq, Structural)]
pub enum SelectionPolicy {
    KeepFirst,
    KeepNewest,
    KeepOldest,
    PreferPreferredDirectories,
    ClearSelection,
}

#[derive(Clone, Copy, Debug, PartialEq, Eq, Structural)]
pub enum SelectionError {
    UnknownFile(DuplicateFileId),
    WouldSelectEveryCopy,
    NotDuplicate,
}

/// Whether selecting `id` would leave no file of the group unselected.
pub open spec fn would_select_every_copy(g: DuplicateGroup, id: u64, selected: bool) -> bool {
    selected && g.selection().len() + 1 == g.files@.len() && !g.selection().contains(id)
}

/// The selection after asking to set `id` to `selected`: unchanged when
/// `id` is not a file of the group or when it would select every file.
pub open spec fn selection_after_set(g: DuplicateGroup, id: u64, selected: bool) -> Set<u64> {
    if !has_file(g.files@, id) || would_select_every_copy(g, id, selected) {
        g.selection()
    } else if selected {
        g.selection().insert(id)
    } else {
        g.selection().remove(id)
    }
}

/// Whether some file of `files` has the id `id`.
pub open spec fn has_file(files: Seq<DuplicateFile>, id: u64) -> bool {
    exists|i: int| 0 <= i < files.len() && #[trigger] files[i].id.0 == id
}

/// The ids of all files, in order.
pub open spec fn file_ids(files: Seq<DuplicateFile>) -> Seq<u64> {
    files.map_values(|f: DuplicateFile| f.id.0)
}

/// Whether no two files share an id.
pub open spec fn distinct_ids(files: Seq<DuplicateFile>) -> bool {
    forall|i: int, j: int|
        0 <= i < files.len() && 0 <= j < files.len() && i != j ==> files[i].id.0 != files[j].id.0
}

/// The files whose id is in `sel`, in the order of `files`.
pub open spec fn files_in(files: Seq<DuplicateFile>, sel: Set<u64>) -> Seq<DuplicateFile>
    decreases files.len(),
{
    if files.len() == 0 {
        Seq::empty()
    } else {
        let rest = files_in(files.drop_last(), sel);
        if sel.contains(files.last().id.0) {
            rest.push(files.last())
        } else {
            rest
        }
    }
}

/// Orders a modification time so that an unknown time comes before every
/// known one, as `Option` does.
pub open spec fn time_key(t: Option<Timestamp>) -> int {
    match t {
        Some(t) => t.nanos as int,
        None => i128::MIN - 1,
    }
}

/// The index of the newest file; of several equally new, the last.
pub open spec fn newest_index(files: Seq<DuplicateFile>) -> int
    decreases files.len(),
{
    if files.len() <= 1 {
        0
    } else {
        let j = newest_index(files.drop_last());
        if time_key(files.last().modified) >= time_key(files[j].modified) {
            files.len() - 1
        } else {
            j
        }
    }
}

/// The index of the oldest file; of several equally old, the first.
pub open spec fn oldest_index(files: Seq<DuplicateFile>) -> int
    decreases files.len(),
{
    if files.len() <= 1 {
        0
    } else {
        let j = oldest_index(files.drop_last());
        if time_key(files.last().modified) < time_key(files[j].modified) {
            files.len() - 1
        } else {
            j
        }
    }
}

/// Whether `path` lies under one of the `preferred` directories.
pub open spec fn under_preferred(path: Seq<u8>, preferred: Seq<Seq<u8>>) -> bool {
    exists|k: int| 0 <= k < preferred.len() && path_starts_with(path, #[trigger] preferred[k])
}

/// The index of the first file under a preferred directory, or the number
/// of files when there is none.
pub open spec fn first_preferred(files: Seq<DuplicateFile>, preferred: Seq<Seq<u8>>) -> int
    decreases files.len(),
{
    if files.len() == 0 {
        0
    } else {
        let j = first_preferred(files.drop_last(), preferred);
        if j < files.len() - 1 {
            j
        } else if under_preferred(files.last().path@, preferred) {
            files.len() - 1
        } else {
            files.len() as int
        }
    }
}

/// The index of the file that a policy keeps.
pub open spec fn keep_index(
    files: Seq<DuplicateFile>,
    policy: SelectionPolicy,
    preferred: Seq<Seq<u8>>,
) -> int {
    match policy {
        SelectionPolicy::KeepNewest => newest_index(files),
        SelectionPolicy::KeepOldest => oldest_index(files),
        SelectionPolicy::PreferPreferredDirectories => {
            let j = first_preferred(files, preferred);
            if j < files.len() {
                j
            } else {
                0
            }
        },
        _ => 0,
    }
}

/// The ids of every file except the one at index `keep`.
pub open spec fn ids_except(files: Seq<DuplicateFile>, keep: int) -> Set<u64> {
    Set::new(|id: u64| exists|i: int| 0 <= i < files.len() && i != keep && #[trigger] files[i].id.0 == id)
}

/// The selection that a policy produces.
pub open spec fn policy_selection(
    files: Seq<DuplicateFile>,
    policy: SelectionPolicy,
    preferred: Seq<Seq<u8>>,
) -> Set<u64> {
    if policy == SelectionPolicy::ClearSelection {
        Set::empty()
    } else {
        ids_except(files, keep_index(files, policy, preferred))
    }
}

/// The paths of a list of directories.
pub open spec fn path_views(paths: Seq<Vec<u8>>) -> Seq<Seq<u8>> {
    paths.map_values(|p: Vec<u8>| p@)
}

proof fn lemma_newest_in_range(files: Seq<DuplicateFile>)
    ensures
        files.len() > 0 ==> 0 <= newest_index(files) < files.len(),
        files.len() > 0 ==> forall|i: int|
            0 <= i < files.len() ==> time_key(#[trigger] files[i].modified) <= time_key(
                files[newest_index(files)].modified,
            ),
    decreases files.len(),
{
    if files.len() > 1 {
        lemma_newest_in_range(files.drop_last());
        assert forall|i: int| 0 <= i < files.len() implies time_key(#[trigger] files[i].modified)
            <= time_key(files[newest_index(files)].modified) by {
            if i < files.len() - 1 {
                assert(files[i] == files.drop_last()[i]);
            }
        }
    }
}

/// The kept index lies within the files.
pub proof fn lemma_keep_index_range(
    files: Seq<DuplicateFile>,
    policy: SelectionPolicy,
    preferred: Seq<Seq<u8>>,
)
    requires
        files.len() >= 1,
    ensures
        0 <= keep_index(files, policy, preferred) < files.len(),
{
    lemma_newest_in_range(files);
    lemma_oldest_in_range(files);
    lemma_first_preferred_range(files, preferred);
}

proof fn lemma_oldest_in_range(files: Seq<DuplicateFile>)
    ensures
        files.len() > 0 ==> 0 <= oldest_index(files) < files.len(),
    decreases files.len(),
{
    if files.len() > 1 {
        lemma_oldest_in_range(files.drop_last());
    }
}

proof fn lemma_first_preferred_range(files: Seq<DuplicateFile>, preferred: Seq<Seq<u8>>)
    ensures
        0 <= first_preferred(files, preferred) <= files.len(),
        first_preferred(files, preferred) < files.len() ==> under_preferred(
            files[first_preferred(files, preferred)].path@,
            preferred,
        ),
        forall|i: int|
            0 <= i < first_preferred(files, preferred) ==> !under_preferred(
                #[trigger] files[i].path@,
                preferred,
            ),
    decreases files.len(),
{
    if files.len() > 0 {
        let d = files.drop_last();
        lemma_first_preferred_range(d, preferred);
        assert forall|i: int| 0 <= i < first_preferred(files, preferred) implies !under_preferred(
            #[trigger] files[i].path@,
            preferred,
        ) by {
            if i < files.len() - 1 {
                assert(files[i] == d[i]);
            }
        }
        if first_preferred(d, preferred) < d.len() {
            assert(files[first_preferred(d, preferred)] == d[first_preferred(d, preferred)]);
        }
    }
}

proof fn lemma_files_in_len(files: Seq<DuplicateFile>, sel: Set<u64>)
    ensures
        files_in(files, sel).len() <= files.len(),
    decreases files.len(),
{
    if files.len() > 0 {
        lemma_files_in_len(files.drop_last(), sel);
    }
}

impl DuplicateGroup {
    /// The ids of the files selected for removal.
    pub open spec fn selection(&self) -> Set<u64> {
        self.selected@
    }

    /// The selection only names files of the group, is finite, and leaves
    /// at least one id of the group unselected.
    pub open spec fn well_formed(&self) -> bool {
        &&& self.files@.len() >= 2
        &&& self.selection().finite()
        &&& forall|id: u64| #[trigger] self.selection().contains(id) ==> has_file(self.files@, id)
        &&& self.selection().len() < self.files@.len()
    }

    /// A group of at least two files with nothing selected.
    pub fn new(id: GroupId, file_size: u64, files: Vec<DuplicateFile>) -> (r: Result<
        Self,
        SelectionError,
    >)
        ensures
            files@.len() < 2 ==> r == Err::<Self, SelectionError>(SelectionError::NotDuplicate),
            files@.len() >= 2 ==> r is Ok,
            r matches Ok(g) ==> {
                &&& g.id == id
                &&& g.file_size == file_size
                &&& g.files@ == files@
                &&& g.selection() == Set::<u64>::empty()
                &&& g.well_formed()
            },
    {
        if files.len() < 2 {
            return Err(SelectionError::NotDuplicate);
        }
        Ok(DuplicateGroup { id, file_size, files, selected: Selection { ids: BTreeSet::new() } })
    }

    /// The selected ids.
    pub fn selected_ids(&self) -> (r: &BTreeSet<u64>)
        ensures
            r@ == self.selection(),
    {
        &self.selected.ids
    }

    /// The selected files, in the group's order.
    pub fn selected_files(&self) -> (r: Vec<&DuplicateFile>)
        ensures
            r@.len() == files_in(self.files@, self.selection()).len(),
            forall|i: int| 0 <= i < r@.len() ==> *r@[i] == files_in(self.files@, self.selection())[i],
    {
        let mut out: Vec<&DuplicateFile> = Vec::new();
        let mut i: usize = 0;
        while i < self.files.len()
            invariant
                0 <= i <= self.files@.len(),
                out@.len() == files_in(self.files@.take(i as int), self.selection()).len(),
                forall|k: int|
                    0 <= k < out@.len() ==> *out@[k] == files_in(
                        self.files@.take(i as int),
                        self.selection(),
                    )[k],
            decreases self.files@.len() - i,
        {
            assert(self.files@.take(i + 1).drop_last() =~= self.files@.take(i as int));
            if self.selected.ids.contains(&self.files[i].id.0) {
                out.push(&self.files[i]);
            }
            i = i + 1;
        }
        assert(self.files@.take(self.files@.len() as int) =~= self.files@);
        out
    }

    /// Bytes that removing the selection recovers: one file size per
    /// selected id.
    pub fn selected_bytes(&self) -> (r: u64)
        requires
            self.selection().len() * self.file_size <= u64::MAX,
        ensures
            r == self.selection().len() * self.file_size,
    {
        let n = self.selected.ids.len() as u64;
        n * self.file_size
    }

    pub fn is_selected(&self, id: DuplicateFileId) -> (r: bool)
        ensures
            r == self.selection().contains(id.0),
    {
        self.selected.ids.contains(&id.0)
    }

    /// Selects or clears one file. An id outside the group is refused, and
    /// so is selecting the last file that is not yet selected.
    pub fn set_selected(&mut self, id: DuplicateFileId, selected: bool) -> (r: Result<
        (),
        SelectionError,
    >)
        ensures
            final(self).id == old(self).id,
            final(self).file_size == old(self).file_size,
            final(self).files@ == old(self).files@,
            final(self).selection() == selection_after_set(*old(self), id.0, selected),
            !has_file(old(self).files@, id.0) ==> r == Err::<(), SelectionError>(
                SelectionError::UnknownFile(id),
            ),
            has_file(old(self).files@, id.0) && would_select_every_copy(*old(self), id.0, selected)
                ==> r == Err::<(), SelectionError>(SelectionError::WouldSelectEveryCopy),
            has_file(old(self).files@, id.0) && !would_select_every_copy(
                *old(self),
                id.0,
                selected,
            ) ==> r == Ok::<(), SelectionError>(()),
    {
        let mut found = false;
        let mut i: usize = 0;
        while i < self.files.len()
            invariant
                0 <= i <= self.files@.len(),
                found == exists|k: int| 0 <= k < i && #[trigger] self.files@[k].id.0 == id.0,
            decreases self.files@.len() - i,
        {
            if self.files[i].id.0 == id.0 {
                found = true;
            }
            i = i + 1;
        }
        if !found {
            return Err(SelectionError::UnknownFile(id));
        }
        let n = self.files.len();
        if selected && self.selected.ids.len() == n - 1 && !self.selected.ids.contains(&id.0) {
            return Err(SelectionError::WouldSelectEveryCopy);
        }
        if selected {
            self.selected.ids.insert(id.0);
        } else {
            self.selected.ids.remove(&id.0);
        }
        Ok(())
    }

    /// Replaces the selection with the one `policy` gives: every file except
    /// the kept one (the first, the newest, the oldest, or the first under a
    /// preferred directory, else the first), or nothing for `ClearSelection`.
    pub fn apply_selection(&mut self, policy: SelectionPolicy, preferred: &[Vec<u8>])
        ensures
            final(self).id == old(self).id,
            final(self).file_size == old(self).file_size,
            final(self).files@ == old(self).files@,
            final(self).selection() == policy_selection(
                old(self).files@,
                policy,
                path_views(preferred@),
            ),
            final(self).selection().finite(),
    {
        self.selected.ids.clear();
        if policy == SelectionPolicy::ClearSelection {
            assert(self.selection() =~= policy_selection(
                self.files@,
                policy,
                path_views(preferred@),
            ));
            return ;
        }
        let keep = Self::keep_index_of(&self.files, policy, preferred);
        let ghost files = self.files@;
        let mut i: usize = 0;
        while i < self.files.len()
            invariant
                files == self.files@,
                self.id == old(self).id,
                self.file_size == old(self).file_size,
                files == old(self).files@,
                0 <= i <= files.len(),
                self.selected.ids@.finite(),
                self.selected.ids@ == Set::new(
                    |id: u64|
                        exists|k: int| 0 <= k < i && k != keep && #[trigger] files[k].id.0 == id,
                ),
            decreases files.len() - i,
        {
            if i != keep {
                self.selected.ids.insert(self.files[i].id.0);
            }
            proof {
                let s = Set::new(
                    |id: u64|
                        exists|k: int| 0 <= k < i + 1 && k != keep && #[trigger] files[k].id.0 == id,
                );
                assert forall|id: u64| s.contains(id) == self.selected.ids@.contains(id) by {
                    if s.contains(id) {
                        let k = choose|k: int|
                            0 <= k < i + 1 && k != keep && #[trigger] files[k].id.0 == id;
                        if k < i {
                        }
                    }
                }
                assert(self.selected.ids@ =~= s);
            }
            i = i + 1;
        }
        assert(self.selection() =~= policy_selection(files, policy, path_views(preferred@)));
    }

    fn keep_index_of(files: &Vec<DuplicateFile>, policy: SelectionPolicy, preferred: &[Vec<u8>]) -> (r:
        usize)
        requires
            policy != SelectionPolicy::ClearSelection,
        ensures
            r == keep_index(files@, policy, path_views(preferred@)),
    {
        match policy {
            SelectionPolicy::KeepNewest => {
                if files.len() <= 1 {
                    return 0;
                }
                let mut best: usize = 0;
                let mut i: usize = 1;
                while i < files.len()
                    invariant
                        1 <= i <= files@.len(),
                        best == newest_index(files@.take(i as int)),
                        0 <= best < i,
                    decreases files@.len() - i,
                {
                    let ghost t = files@.take(i + 1);
                    assert(t.drop_last() =~= files@.take(i as int));
                    assert(t[best as int] == files@[best as int]);
                    if later_or_equal(files[i].modified, files[best].modified) {
                        best = i;
                    }
                    i = i + 1;
                }
                assert(files@.take(files@.len() as int) =~= files@);
                best
            },
            SelectionPolicy::KeepOldest => {
                if files.len() <= 1 {
                    return 0;
                }
                let mut best: usize = 0;
                let mut i: usize = 1;
                while i < files.len()
                    invariant
                        1 <= i <= files@.len(),
                        best == oldest_index(files@.take(i as int)),
                        0 <= best < i,
                    decreases files@.len() - i,
                {
                    let ghost t = files@.take(i + 1);
                    assert(t.drop_last() =~= files@.take(i as int));
                    assert(t[best as int] == files@[best as int]);
                    proof {
                        lemma_oldest_in_range(files@.take(i as int));
                    }
                    if !later_or_equal(files[i].modified, files[best].modified) {
                        best = i;
                    }
                    i = i + 1;
                }
                assert(files@.take(files@.len() as int) =~= files@);
                best
            },
            SelectionPolicy::PreferPreferredDirectories => {
                let ghost pv = path_views(preferred@);
                let mut i: usize = 0;
                while i < files.len()
                    invariant
                        0 <= i <= files@.len(),
                        pv == path_views(preferred@),
                        policy == SelectionPolicy::PreferPreferredDirectories,
                        first_preferred(files@.take(i as int), pv) == i,
                    decreases files@.len() - i,
                {
                    assert(files@.take(i + 1).drop_last() =~= files@.take(i as int));
                    assert(files@.take(i + 1).last() == files@[i as int]);
                    if Self::is_under_preferred(files[i].path.as_slice(), preferred) {
                        assert(under_preferred(files@[i as int].path@, pv));
                        proof {
                            lemma_first_preferred_prefix(files@, pv, (i + 1) as int);
                        }
                        assert(keep_index(files@, SelectionPolicy::PreferPreferredDirectories, pv) == i);
                        return i;
                    }
                    i = i + 1;
                }
                assert(files@.take(files@.len() as int) =~= files@);
                0
            },
            _ => 0,
        }
    }

    fn is_under_preferred(path: &[u8], preferred: &[Vec<u8>]) -> (r: bool)
        ensures
            r == under_preferred(path@, path_views(preferred@)),
    {
        let ghost pv = path_views(preferred@);
        let mut k: usize = 0;
        while k < preferred.len()
            invariant
                0 <= k <= preferred@.len(),
                pv == path_views(preferred@),
                forall|j: int| 0 <= j < k ==> !path_starts_with(path@, #[trigger] pv[j]),
            decreases preferred@.len() - k,
        {
            if starts_with(path, preferred[k].as_slice()) {
                assert(path_starts_with(path@, pv[k as int]));
                return true;
            }
            k = k + 1;
        }
        false
    }

    /// Refuses a selection that covers every file.
    pub fn validate_selection(&self) -> (r: Result<(), SelectionError>)
        ensures
            self.selection().len() >= self.files@.len() ==> r == Err::<(), SelectionError>(
                SelectionError::WouldSelectEveryCopy,
            ),
            self.selection().len() < self.files@.len() ==> r == Ok::<(), SelectionError>(()),
    {
        if self.selected.ids.len() >= self.files.len() {
            Err(SelectionError::WouldSelectEveryCopy)
        } else {
            Ok(())
        }
    }
}

proof fn lemma_first_preferred_prefix(files: Seq<DuplicateFile>, pv: Seq<Seq<u8>>, n: int)
    requires
        1 <= n <= files.len(),
        first_preferred(files.take(n - 1), pv) == n - 1,
        under_preferred(files[n - 1].path@, pv),
    ensures
        keep_index(files, SelectionPolicy::PreferPreferredDirectories, pv) == n - 1,
    decreases files.len() - n,
{
    assert(files.take(n).drop_last() =~= files.take(n - 1));
    assert(files.take(n).last() == files[n - 1]);
    assert(first_preferred(files.take(n), pv) == n - 1);
    lemma_first_preferred_stable(files, pv, n);
}

proof fn lemma_first_preferred_stable(files: Seq<DuplicateFile>, pv: Seq<Seq<u8>>, n: int)
    requires
        1 <= n <= files.len(),
        first_preferred(files.take(n), pv) < n,
    ensures
        first_preferred(files, pv) == first_preferred(files.take(n), pv),
    decreases files.len() - n,
{
    if n < files.len() {
        assert(files.take(n + 1).drop_last() =~= files.take(n));
        lemma_first_preferred_stable(files, pv, n + 1);
    } else {
        assert(files.take(n) =~= files);
    }
}

/// With distinct ids, a finite selection of fewer ids than files leaves
/// some file unselected.
pub proof fn lemma_some_file_unselected(files: Seq<DuplicateFile>, sel: Set<u64>)
    requires
        distinct_ids(files),
        sel.finite(),
        sel.len() < files.len(),
    ensures
        exists|i: int| 0 <= i < files.len() && !sel.contains(#[trigger] files[i].id.0),
{
    let ids = file_ids(files);
    assert(ids.no_duplicates()) by {
        assert forall|i: int, j: int| 0 <= i < ids.len() && 0 <= j < ids.len() && i != j implies ids[i] != ids[j] by {
            assert(ids[i] == files[i].id.0);
            assert(ids[j] == files[j].id.0);
        }
    }
    ids.unique_seq_to_set();
    if forall|i: int| 0 <= i < files.len() ==> sel.contains(#[trigger] files[i].id.0) {
        assert(ids.to_set().subset_of(sel)) by {
            assert forall|x: u64| ids.to_set().contains(x) implies sel.contains(x) by {
                let j = choose|j: int| 0 <= j < ids.len() && ids[j] == x;
                assert(sel.contains(files[j].id.0));
            }
        }
        vstd::set_lib::lemma_len_subset(ids.to_set(), sel);
        assert(false);
    }
}

/// Selection never covers every copy: in a well-formed group whose files
/// have distinct ids, whatever `set_selected` is asked, the group stays
/// well-formed and some file stays unselected.
pub proof fn law_set_selected_keeps_a_copy(g: DuplicateGroup, id: u64, selected: bool)
    requires
        g.well_formed(),
        distinct_ids(g.files@),
    ensures
        selection_after_set(g, id, selected).finite(),
        selection_after_set(g, id, selected).len() < g.files@.len(),
        forall|x: u64| #[trigger]
            selection_after_set(g, id, selected).contains(x) ==> has_file(g.files@, x),
        exists|i: int|
            0 <= i < g.files@.len() && !selection_after_set(g, id, selected).contains(
                #[trigger] g.files@[i].id.0,
            ),
{
    let s = selection_after_set(g, id, selected);
    if has_file(g.files@, id) && !would_select_every_copy(g, id, selected) && selected
        && !g.selection().contains(id) {
        assert(s.len() == g.selection().len() + 1);
    }
    lemma_some_file_unselected(g.files@, s);
}

/// A policy other than clearing keeps exactly one copy: with distinct ids,
/// the kept file is the only one left unselected.
pub proof fn law_policy_keeps_one_copy(
    files: Seq<DuplicateFile>,
    policy: SelectionPolicy,
    preferred: Seq<Seq<u8>>,
)
    requires
        files.len() >= 1,
        distinct_ids(files),
        policy != SelectionPolicy::ClearSelection,
    ensures
        ({
            let k = keep_index(files, policy, preferred);
            let s = policy_selection(files, policy, preferred);
            &&& 0 <= k < files.len()
            &&& !s.contains(files[k].id.0)
            &&& forall|i: int| 0 <= i < files.len() && i != k ==> s.contains(#[trigger] files[i].id.0)
            &&& s.finite()
            &&& s.len() == files.len() - 1
        }),
{
    let k = keep_index(files, policy, preferred);
    lemma_keep_index_range(files, policy, preferred);
    let s = policy_selection(files, policy, preferred);
    assert forall|i: int| 0 <= i < files.len() && i != k implies s.contains(#[trigger] files[i].id.0) by {
    }
    let ids = file_ids(files).remove(k);
    assert(ids.no_duplicates()) by {
        assert forall|i: int, j: int| 0 <= i < ids.len() && 0 <= j < ids.len() && i != j implies ids[i] != ids[j] by {
            let a = if i < k { i } else { i + 1 };
            let b = if j < k { j } else { j + 1 };
            assert(ids[i] == files[a].id.0);
            assert(ids[j] == files[b].id.0);
        }
    }
    assert(s =~= ids.to_set()) by {
        assert forall|id: u64| s.contains(id) implies ids.to_set().contains(id) by {
            let i = choose|i: int| 0 <= i < files.len() && i != k && #[trigger] files[i].id.0 == id;
            if i < k {
                assert(ids[i] == id);
            } else {
                assert(ids[i - 1] == id);
            }
        }
        assert forall|id: u64| ids.to_set().contains(id) implies s.contains(id) by {
            let j = choose|j: int| 0 <= j < ids.len() && ids[j] == id;
            if j < k {
                assert(files[j].id.0 == id);
            } else {
                assert(files[j + 1].id.0 == id);
            }
        }
    }
    ids.unique_seq_to_set();
}

/// The preferred-directory policy keeps the first file under a preferred
/// directory whenever there is one.
pub proof fn law_preferred_copy_kept(files: Seq<DuplicateFile>, preferred: Seq<Seq<u8>>)
    requires
        exists|i: int| 0 <= i < files.len() && under_preferred(#[trigger] files[i].path@, preferred),
    ensures
        ({
            let k = keep_index(files, SelectionPolicy::PreferPreferredDirectories, preferred);
            &&& 0 <= k < files.len()
            &&& under_preferred(files[k].path@, preferred)
            &&& forall|i: int| 0 <= i < k ==> !under_preferred(#[trigger] files[i].path@, preferred)
        }),
{
    lemma_first_preferred_range(files, preferred);
    let i = choose|i: int| 0 <= i < files.len() && under_preferred(#[trigger] files[i].path@, preferred);
    if first_preferred(files, preferred) >= files.len() {
        assert(!under_preferred(files[i].path@, preferred));
    }
}

/// The newest-copy policy keeps a file no older than any other, and of
/// several equally new files the last.
pub proof fn law_newest_copy_kept(files: Seq<DuplicateFile>)
    requires
        files.len() >= 1,
    ensures
        ({
            let k = newest_index(files);
            &&& 0 <= k < files.len()
            &&& forall|i: int| 0 <= i < files.len() ==> time_key(#[trigger] files[i].modified) <= time_key(files[k].modified)
            &&& forall|i: int| k < i < files.len() ==> time_key(#[trigger] files[i].modified) < time_key(files[k].modified)
        }),
    decreases files.len(),
{
    lemma_newest_in_range(files);
    if files.len() > 1 {
        let d = files.drop_last();
        law_newest_copy_kept(d);
        let k = newest_index(files);
        assert forall|i: int| k < i < files.len() implies time_key(#[trigger] files[i].modified) < time_key(files[k].modified) by {
            if i < files.len() - 1 {
                assert(files[i] == d[i]);
                assert(files[k] == d[k]);
            }
        }
    }
}

/// The oldest-copy policy keeps a file no newer than any other (an unknown
/// time counting as oldest), and of several equally old files the first.
pub proof fn law_oldest_copy_kept(files: Seq<DuplicateFile>)
    requires
        files.len() >= 1,
    ensures
        ({
            let k = oldest_index(files);
            &&& 0 <= k < files.len()
            &&& forall|i: int| 0 <= i < files.len() ==> time_key(files[k].modified) <= time_key(#[trigger] files[i].modified)
            &&& forall|i: int| 0 <= i < k ==> time_key(files[k].modified) < time_key(#[trigger] files[i].modified)
        }),
    decreases files.len(),
{
    lemma_oldest_in_range(files);
    if files.len() > 1 {
        let d = files.drop_last();
        law_oldest_copy_kept(d);
        let k = oldest_index(files);
        assert forall|i: int| 0 <= i < files.len() implies time_key(files[k].modified) <= time_key(#[trigger] files[i].modified) by {
            if i < files.len() - 1 {
                assert(files[i] == d[i]);
            }
            if k < files.len() - 1 {
                assert(files[k] == d[k]);
            }
        }
        assert forall|i: int| 0 <= i < k implies time_key(files[k].modified) < time_key(#[trigger] files[i].modified) by {
            assert(files[i] == d[i]);
            if k < files.len() - 1 {
                assert(files[k] == d[k]);
            }
        }
    }
}

/// Whether `a` orders at or after `b`, an unknown time coming first.
fn later_or_equal(a: Option<Timestamp>, b: Option<Timestamp>) -> (r: bool)
    ensures
        r == (time_key(a) >= time_key(b)),
{
    match (a, b) {
        (None, None) => true,
        (None, Some(_)) => false,
        (Some(_), None) => true,
        (Some(x), Some(y)) => x.nanos >= y.nanos,
    }
}


#[derive(Clone, Debug, PartialEq, Eq, Structural)]
pub struct ScanSummary {
    pub duplicate_groups: u64,
    pub duplicate_files: u64,
    pub recoverable_bytes: u64,
}

impl Default for ScanSummary {
    fn default() -> (r: Self)
        ensures
            r.duplicate_groups == 0,
            r.duplicate_files == 0,
            r.recoverable_bytes == 0,
    {
        ScanSummary { duplicate_groups: 0, duplicate_files: 0, recoverable_bytes: 0 }
    }
}

#[derive(Clone, Debug, PartialEq, Eq)]
pub struct ScanResult {
    pub groups: Vec<DuplicateGroup>,
    pub summary: ScanSummary,
}

impl Default for ScanResult {
    fn default() -> (r: Self)
        ensures
            r.groups@.len() == 0,
            r.summary == (ScanSummary { duplicate_groups: 0, duplicate_files: 0, recoverable_bytes: 0 }),
    {
        ScanResult { groups: Vec::new(), summary: ScanSummary::default() }
    }
}

/// The sum of `f` over the groups.
pub open spec fn sum_groups(gs: Seq<DuplicateGroup>, f: spec_fn(DuplicateGroup) -> nat) -> nat
    decreases gs.len(),
{
    if gs.len() == 0 {
        0
    } else {
        sum_groups(gs.drop_last(), f) + f(gs.last())
    }
}

/// Number of files in a group.
pub open spec fn group_file_count(g: DuplicateGroup) -> nat {
    g.files@.len()
}

/// Number of selected ids in a group.
pub open spec fn group_selected_count(g: DuplicateGroup) -> nat {
    g.selection().len()
}

/// Bytes recovered by removing a group's selection.
pub open spec fn group_selected_bytes(g: DuplicateGroup) -> nat {
    g.selection().len() * (g.file_size as nat)
}

/// A sum over a prefix never exceeds the sum over the whole sequence.
pub proof fn lemma_sum_groups_prefix(gs: Seq<DuplicateGroup>, f: spec_fn(DuplicateGroup) -> nat, i: int)
    requires
        0 <= i < gs.len(),
    ensures
        sum_groups(gs.take(i + 1), f) == sum_groups(gs.take(i), f) + f(gs[i]),
        sum_groups(gs.take(i + 1), f) <= sum_groups(gs, f),
    decreases gs.len() - i,
{
    assert(gs.take(i + 1).drop_last() =~= gs.take(i));
    if i + 1 < gs.len() {
        lemma_sum_groups_prefix(gs, f, i + 1);
    } else {
        assert(gs.take(i + 1) =~= gs);
    }
}

impl ScanResult {
    /// A result over `groups`, whose summary counts the groups, their files,
    /// and the bytes their current selections recover.
    pub fn from_groups(groups: Vec<DuplicateGroup>) -> (r: Self)
        requires
            sum_groups(groups@, |g: DuplicateGroup| group_file_count(g)) <= u64::MAX,
            sum_groups(groups@, |g: DuplicateGroup| group_selected_bytes(g)) <= u64::MAX,
        ensures
            r.groups@ == groups@,
            r.summary.duplicate_groups == groups@.len(),
            r.summary.duplicate_files == sum_groups(groups@, |g: DuplicateGroup| group_file_count(g)),
            r.summary.recoverable_bytes == sum_groups(
                groups@,
                |g: DuplicateGroup| group_selected_bytes(g),
            ),
    {
        let ghost ff = |g: DuplicateGroup| group_file_count(g);
        let ghost fb = |g: DuplicateGroup| group_selected_bytes(g);
        let mut files: u64 = 0;
        let mut bytes: u64 = 0;
        let mut i: usize = 0;
        while i < groups.len()
            invariant
                0 <= i <= groups@.len(),
                ff == (|g: DuplicateGroup| group_file_count(g)),
                fb == (|g: DuplicateGroup| group_selected_bytes(g)),
                sum_groups(groups@, ff) <= u64::MAX,
                sum_groups(groups@, fb) <= u64::MAX,
                files == sum_groups(groups@.take(i as int), ff),
                bytes == sum_groups(groups@.take(i as int), fb),
            decreases groups@.len() - i,
        {
            proof {
                lemma_sum_groups_prefix(groups@, ff, i as int);
                lemma_sum_groups_prefix(groups@, fb, i as int);
            }
            let g = &groups[i];
            files = files + g.files.len() as u64;
            bytes = bytes + g.selected_bytes();
            i = i + 1;
        }
        assert(groups@.take(groups@.len() as int) =~= groups@);
        let summary = ScanSummary {
            duplicate_groups: groups.len() as u64,
            duplicate_files: files,
            recoverable_bytes: bytes,
        };
        ScanResult { groups, summary }
    }

    /// Refuses a result in which some group has every file selected.
    pub fn validate_selection(&self) -> (r: Result<(), SelectionError>)
        ensures
            r is Err <==> exists|i: int|
                0 <= i < self.groups@.len() && #[trigger] self.groups@[i].selection().len()
                    >= self.groups@[i].files@.len(),
            r is Err ==> r == Err::<(), SelectionError>(SelectionError::WouldSelectEveryCopy),
    {
        let mut i: usize = 0;
        while i < self.groups.len()
            invariant
                0 <= i <= self.groups@.len(),
                forall|k: int|
                    0 <= k < i ==> #[trigger] self.groups@[k].selection().len()
                        < self.groups@[k].files@.len(),
            decreases self.groups@.len() - i,
        {
            let res = self.groups[i].validate_selection();
            if res.is_err() {
                return res;
            }
            i = i + 1;
        }
        Ok(())
    }

    /// Number of files selected across all groups.
    pub fn selected_file_count(&self) -> (r: u64)
        requires
            sum_groups(self.groups@, |g: DuplicateGroup| group_selected_count(g)) <= u64::MAX,
        ensures
            r == sum_groups(self.groups@, |g: DuplicateGroup| group_selected_count(g)),
    {
        let ghost f = |g: DuplicateGroup| group_selected_count(g);
        let mut total: u64 = 0;
        let mut i: usize = 0;
        while i < self.groups.len()
            invariant
                0 <= i <= self.groups@.len(),
                f == (|g: DuplicateGroup| group_selected_count(g)),
                sum_groups(self.groups@, f) <= u64::MAX,
                total == sum_groups(self.groups@.take(i as int), f),
            decreases self.groups@.len() - i,
        {
            proof {
                lemma_sum_groups_prefix(self.groups@, f, i as int);
            }
            total = total + self.groups[i].selected_ids().len() as u64;
            i = i + 1;
        }
        assert(self.groups@.take(self.groups@.len() as int) =~= self.groups@);
        total
    }

    /// Bytes recovered by removing every group's selection.
    pub fn selected_bytes(&self) -> (r: u64)
        requires
            sum_groups(self.groups@, |g: DuplicateGroup| group_selected_bytes(g)) <= u64::MAX,
        ensures
            r == sum_groups(self.groups@, |g: DuplicateGroup| group_selected_bytes(g)),
    {
        let ghost f = |g: DuplicateGroup| group_selected_bytes(g);
        let mut total: u64 = 0;
        let mut i: usize = 0;
        while i < self.groups.len()
            invariant
                0 <= i <= self.groups@.len(),
                f == (|g: DuplicateGroup| group_selected_bytes(g)),
                sum_groups(self.groups@, f) <= u64::MAX,
                total == sum_groups(self.groups@.take(i as int), f),
            decreases self.groups@.len() - i,
        {
            proof {
                lemma_sum_groups_prefix(self.groups@, f, i as int);
            }
            total = total + self.groups[i].selected_bytes();
            i = i + 1;
        }
        assert(self.groups@.take(self.groups@.len() as int) =~= self.groups@);
        total
    }
}

} // verus!
