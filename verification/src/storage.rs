//! The records of scan history and the column codec used to store them.
//!
//! Paths are stored as BLOBs: a tag byte `0` followed by the path's bytes,
//! so a round trip keeps file names that are not valid UTF-8. Times are
//! stored as milliseconds and as nanoseconds since the Unix epoch.
use crate::cleanup::lemma_files_in_count;
use crate::models::{
    distinct_ids, files_in, has_file, DuplicateFile, DuplicateFileId, DuplicateGroup, GroupId, ScanPath, ScanSummary,
    Timestamp,
};
use vstd::prelude::*;

verus! {

broadcast use vstd::laws_cmp::group_laws_cmp;

pub type ScanId = i64;

/// A stored value that does not fit the column's meaning.
#[derive(Clone, Copy, Debug, PartialEq, Eq, Structural)]
pub enum ColumnError {
    /// An integer column holds a value outside the range of its field.
    IntegralValueOutOfRange { column: usize, value: i64 },
    /// A status column holds an unknown status.
    InvalidStatus,
}

#[derive(Clone, Debug, PartialEq, Eq)]
pub enum StorageError {
    /// The database reported an error; its message.
    Database(String),
    /// A stored value could not be read back.
    Column(ColumnError),
    ScanNotFound(ScanId),
    FileNotFound(DuplicateFileId),
    LastCopySelected { file_id: DuplicateFileId },
    InvalidTime,
    IncompatiblePath,
}

#[derive(Clone, Copy, Debug, PartialEq, Eq, Structural)]
pub enum ScanStatus {
    Running,
    Completed,
    Failed,
    Cancelled,
}

#[derive(Clone, Debug, PartialEq, Eq)]
pub struct NewScan {
    pub name: Option<String>,
    pub started_at: Timestamp,
    pub paths: Vec<ScanPath>,
    pub settings: ScanSettings,
}

#[derive(Clone, Copy, Debug, PartialEq, Eq, Structural)]
pub struct ScanSettings {
    pub min_size: Option<u64>,
    pub max_size: Option<u64>,
    pub cache: bool,
}

impl Default for ScanSettings {
    fn default() -> (r: Self)
        ensures
            r == (ScanSettings { min_size: Some(1_048_576u64), max_size: None, cache: true }),
    {
        ScanSettings { min_size: Some(1_048_576), max_size: None, cache: true }
    }
}

#[derive(Clone, Debug, PartialEq, Eq)]
pub struct Scan {
    pub id: ScanId,
    pub name: Option<String>,
    pub started_at: Timestamp,
    pub finished_at: Option<Timestamp>,
    pub status: ScanStatus,
    pub summary: Option<ScanSummary>,
    pub paths: Vec<ScanPath>,
    pub settings: ScanSettings,
    pub settings_recorded: bool,
}

/// A recorded cleanup run.
#[derive(Clone, Debug, PartialEq, Eq)]
pub struct CleanupAction {
    pub id: i64,
    pub scan_id: ScanId,
    pub created_at: Timestamp,
    pub action: String,
    pub affected_files: u64,
    pub recovered_bytes: u64,
}

#[derive(Clone, Debug, PartialEq, Eq)]
pub struct NewCleanupAction {
    pub created_at: Timestamp,
    pub action: String,
    pub affected_files: u64,
    pub recovered_bytes: u64,
}

/// A cleanup audit entry with its outcome. Failed targets are kept rather
/// than folded into a success count.
#[derive(Clone, Debug, PartialEq, Eq)]
pub struct CleanupHistoryEntry {
    pub action: CleanupAction,
    pub attempted_files: u64,
    pub failures: Vec<CleanupFailureRecord>,
}

#[derive(Clone, Debug, PartialEq, Eq)]
pub struct CleanupFailureRecord {
    pub path: Vec<u8>,
    pub message: String,
}

pub open spec fn nanos_per_milli() -> int {
    1_000_000
}

/// Milliseconds since the epoch of a time at or after it.
pub open spec fn spec_millis(t: Timestamp) -> int {
    (t.nanos as int) / nanos_per_milli()
}

/// Milliseconds since the epoch, refused for a time before the epoch or
/// beyond the range of the column.
pub fn time_to_millis(time: Timestamp) -> (r: Result<i64, StorageError>)
    ensures
        time.nanos < 0 ==> r == Err::<i64, StorageError>(StorageError::InvalidTime),
        time.nanos >= 0 && spec_millis(time) > i64::MAX ==> r == Err::<i64, StorageError>(
            StorageError::InvalidTime,
        ),
        time.nanos >= 0 && spec_millis(time) <= i64::MAX ==> r == Ok::<i64, StorageError>(
            spec_millis(time) as i64,
        ),
{
    if time.nanos < 0 {
        return Err(StorageError::InvalidTime);
    }
    let millis = time.nanos / 1_000_000;
    if millis > i64::MAX as i128 {
        return Err(StorageError::InvalidTime);
    }
    Ok(millis as i64)
}

/// The time a millisecond column stands for; a negative value is refused.
pub fn millis_to_time(value: i64) -> (r: Result<Timestamp, ColumnError>)
    ensures
        value < 0 ==> r == Err::<Timestamp, ColumnError>(
            ColumnError::IntegralValueOutOfRange { column: 0, value },
        ),
        value >= 0 ==> r == Ok::<Timestamp, ColumnError>(
            Timestamp { nanos: (value * nanos_per_milli()) as i128 },
        ),
{
    if value < 0 {
        return Err(ColumnError::IntegralValueOutOfRange { column: 0, value });
    }
    Ok(Timestamp { nanos: value as i128 * 1_000_000 })
}

/// Nanoseconds since the epoch, refused for a time before the epoch or
/// beyond the range of the column.
pub fn time_to_nanos(time: Timestamp) -> (r: Result<i64, StorageError>)
    ensures
        time.nanos < 0 || time.nanos > i64::MAX ==> r == Err::<i64, StorageError>(
            StorageError::InvalidTime,
        ),
        0 <= time.nanos <= i64::MAX ==> r == Ok::<i64, StorageError>(time.nanos as i64),
{
    if time.nanos < 0 || time.nanos > i64::MAX as i128 {
        return Err(StorageError::InvalidTime);
    }
    Ok(time.nanos as i64)
}

/// The time a nanosecond column stands for; a negative value is refused.
pub fn nanos_to_time(value: i64) -> (r: Result<Timestamp, ColumnError>)
    ensures
        value < 0 ==> r == Err::<Timestamp, ColumnError>(
            ColumnError::IntegralValueOutOfRange { column: 0, value },
        ),
        value >= 0 ==> r == Ok::<Timestamp, ColumnError>(Timestamp { nanos: value as i128 }),
{
    if value < 0 {
        return Err(ColumnError::IntegralValueOutOfRange { column: 0, value });
    }
    Ok(Timestamp { nanos: value as i128 })
}

/// An unsigned value as a signed column; values above `i64::MAX` are refused.
pub fn u64_to_i64(value: u64) -> (r: Result<i64, StorageError>)
    ensures
        value > i64::MAX ==> r == Err::<i64, StorageError>(StorageError::InvalidTime),
        value <= i64::MAX ==> r == Ok::<i64, StorageError>(value as i64),
{
    if value > i64::MAX as u64 {
        return Err(StorageError::InvalidTime);
    }
    Ok(value as i64)
}

/// A signed column as an unsigned value; negative values are refused.
pub fn i64_to_u64(value: i64) -> (r: Result<u64, ColumnError>)
    ensures
        value < 0 ==> r == Err::<u64, ColumnError>(
            ColumnError::IntegralValueOutOfRange { column: 0, value },
        ),
        value >= 0 ==> r == Ok::<u64, ColumnError>(value as u64),
{
    if value < 0 {
        return Err(ColumnError::IntegralValueOutOfRange { column: 0, value });
    }
    Ok(value as u64)
}

/// The stored form of a path: the tag byte 0, then the path's bytes.
pub open spec fn encoded_path(path: Seq<u8>) -> Seq<u8> {
    seq![0u8] + path
}

pub fn encode_path(path: &[u8]) -> (r: Vec<u8>)
    ensures
        r@ == encoded_path(path@),
{
    let mut out: Vec<u8> = Vec::new();
    out.push(0u8);
    let mut i: usize = 0;
    while i < path.len()
        invariant
            0 <= i <= path@.len(),
            out@ == seq![0u8] + path@.take(i as int),
        decreases path@.len() - i,
    {
        out.push(path[i]);
        i = i + 1;
        assert(out@ =~= seq![0u8] + path@.take(i as int));
    }
    assert(path@.take(path@.len() as int) =~= path@);
    out
}

/// The path a stored BLOB stands for; a BLOB without the tag byte was not
/// written by this encoding and is refused.
pub fn decode_path(bytes: &[u8]) -> (r: Result<Vec<u8>, StorageError>)
    ensures
        bytes@.len() > 0 && bytes@[0] == 0 ==> (r matches Ok(p) && p@ == bytes@.drop_first()),
        !(bytes@.len() > 0 && bytes@[0] == 0) ==> r == Err::<Vec<u8>, StorageError>(
            StorageError::IncompatiblePath,
        ),
{
    if bytes.len() == 0 || bytes[0] != 0 {
        return Err(StorageError::IncompatiblePath);
    }
    let mut out: Vec<u8> = Vec::new();
    let mut i: usize = 1;
    while i < bytes.len()
        invariant
            1 <= i <= bytes@.len(),
            out@ == bytes@.subrange(1, i as int),
        decreases bytes@.len() - i,
    {
        out.push(bytes[i]);
        i = i + 1;
        assert(out@ =~= bytes@.subrange(1, i as int));
    }
    assert(bytes@.subrange(1, bytes@.len() as int) =~= bytes@.drop_first());
    Ok(out)
}

/// The text stored for a status.
pub open spec fn status_text(status: ScanStatus) -> Seq<char> {
    match status {
        ScanStatus::Running => "running"@,
        ScanStatus::Completed => "completed"@,
        ScanStatus::Failed => "failed"@,
        ScanStatus::Cancelled => "cancelled"@,
    }
}

impl ScanStatus {
    pub fn as_str(self) -> (r: &'static str)
        ensures
            r@ == status_text(self),
    {
        match self {
            ScanStatus::Running => "running",
            ScanStatus::Completed => "completed",
            ScanStatus::Failed => "failed",
            ScanStatus::Cancelled => "cancelled",
        }
    }

    /// The status stored as `value`; any other text is refused.
    pub fn parse(value: &str) -> (r: Result<Self, ColumnError>)
        ensures
            r matches Ok(s) ==> status_text(s) == value@,
            r is Err ==> r == Err::<Self, ColumnError>(ColumnError::InvalidStatus) && forall|
                s: ScanStatus,
            | status_text(s) != value@,
    {
        let v = crate::text::chars_of(value);
        if crate::text::chars_equal(v.as_slice(), "running") {
            Ok(ScanStatus::Running)
        } else if crate::text::chars_equal(v.as_slice(), "completed") {
            Ok(ScanStatus::Completed)
        } else if crate::text::chars_equal(v.as_slice(), "failed") {
            Ok(ScanStatus::Failed)
        } else if crate::text::chars_equal(v.as_slice(), "cancelled") {
            Ok(ScanStatus::Cancelled)
        } else {
            assert forall|s: ScanStatus| status_text(s) != value@ by {
                match s {
                    ScanStatus::Running => {},
                    ScanStatus::Completed => {},
                    ScanStatus::Failed => {},
                    ScanStatus::Cancelled => {},
                }
            }
            Err(ColumnError::InvalidStatus)
        }
    }
}

/// A stored path reads back as the same bytes: the encoding starts with
/// the tag byte that decoding requires, followed by the path unchanged.
pub proof fn law_path_round_trip(path: Seq<u8>)
    ensures
        encoded_path(path).len() > 0,
        encoded_path(path)[0] == 0,
        encoded_path(path).drop_first() == path,
{
    assert(encoded_path(path).drop_first() =~= path);
}

/// A time stored in milliseconds reads back truncated to the millisecond
/// below it.
pub proof fn law_millis_round_trip(time: Timestamp)
    requires
        time.nanos >= 0,
    ensures
        spec_millis(time) >= 0,
        spec_millis(time) * nanos_per_milli() <= time.nanos < spec_millis(time) * nanos_per_milli()
            + nanos_per_milli(),
{
}

/// A time stored in nanoseconds reads back unchanged.
pub proof fn law_nanos_round_trip(time: Timestamp)
    requires
        0 <= time.nanos <= i64::MAX,
    ensures
        ((time.nanos as i64) as i128) == time.nanos,
{
}

/// Each status is stored as its own text, so a stored status reads back as
/// itself.
pub proof fn law_status_round_trip(a: ScanStatus, b: ScanStatus)
    ensures
        status_text(a) == status_text(b) ==> a == b,
{
    reveal_strlit("running");
    reveal_strlit("completed");
    reveal_strlit("failed");
    reveal_strlit("cancelled");
    if a != b {
        match (a, b) {
            (ScanStatus::Running, _) => assert(status_text(a)[0] != status_text(b)[0] || status_text(a).len() != status_text(b).len()),
            (ScanStatus::Completed, ScanStatus::Cancelled) => assert(status_text(a)[2] != status_text(b)[2]),
            (ScanStatus::Cancelled, ScanStatus::Completed) => assert(status_text(a)[2] != status_text(b)[2]),
            (ScanStatus::Completed, _) => assert(status_text(a)[0] != status_text(b)[0] || status_text(a).len() != status_text(b).len()),
            (ScanStatus::Failed, _) => assert(status_text(a)[0] != status_text(b)[0]),
            (ScanStatus::Cancelled, _) => assert(status_text(a)[0] != status_text(b)[0] || status_text(a).len() != status_text(b).len()),
        }
    }
}

/// A stored duplicate file row, as read from the database.
#[derive(Clone, Debug, PartialEq, Eq)]
pub struct FileRow {
    pub id: i64,
    pub path: Vec<u8>,
    pub size: i64,
    pub modified_millis: Option<i64>,
    pub modified_nanos: Option<i64>,
    pub selected: bool,
}

/// Why a stored file row cannot be read back, if it cannot: a negative id,
/// a path without the tag byte, a negative size, or a negative stored time
/// (the nanosecond column is read when present, else the millisecond one).
pub open spec fn row_error(r: FileRow) -> Option<StorageError> {
    if r.id < 0 {
        Some(StorageError::Column(ColumnError::IntegralValueOutOfRange { column: 0, value: r.id }))
    } else if !(r.path@.len() > 0 && r.path@[0] == 0) {
        Some(StorageError::IncompatiblePath)
    } else if r.size < 0 {
        Some(StorageError::Column(ColumnError::IntegralValueOutOfRange { column: 0, value: r.size }))
    } else {
        match r.modified_nanos {
            Some(n) => if n < 0 {
                Some(StorageError::Column(ColumnError::IntegralValueOutOfRange { column: 0, value: n }))
            } else {
                None
            },
            None => match r.modified_millis {
                Some(m) => if m < 0 {
                    Some(StorageError::Column(ColumnError::IntegralValueOutOfRange { column: 0, value: m }))
                } else {
                    None
                },
                None => None,
            },
        }
    }
}

/// The modification time a readable row stands for.
pub open spec fn row_modified(r: FileRow) -> Option<Timestamp> {
    match r.modified_nanos {
        Some(n) => Some(Timestamp { nanos: n as i128 }),
        None => match r.modified_millis {
            Some(m) => Some(Timestamp { nanos: (m * nanos_per_milli()) as i128 }),
            None => None,
        },
    }
}

/// Whether `f` is the file that the readable row `r` stands for.
pub open spec fn file_of_row(f: DuplicateFile, r: FileRow) -> bool {
    &&& f.id == DuplicateFileId(r.id as u64)
    &&& f.path@ == r.path@.drop_first()
    &&& f.size == r.size as u64
    &&& f.modified == row_modified(r)
}

/// The error of the first unreadable row, if any.
pub open spec fn first_row_error(rows: Seq<FileRow>) -> Option<StorageError>
    decreases rows.len(),
{
    if rows.len() == 0 {
        None
    } else {
        match first_row_error(rows.drop_last()) {
            Some(e) => Some(e),
            None => row_error(rows.last()),
        }
    }
}

/// The ids of the rows stored as selected, in row order.
pub open spec fn selected_row_ids(rows: Seq<FileRow>) -> Seq<u64>
    decreases rows.len(),
{
    if rows.len() == 0 {
        Seq::empty()
    } else {
        let rest = selected_row_ids(rows.drop_last());
        if rows.last().selected {
            rest.push(rows.last().id as u64)
        } else {
            rest
        }
    }
}

/// Selecting `ids` one after another in a group of `n` files: the result,
/// or none when one of them would select every file.
pub open spec fn select_in_turn(n: nat, ids: Seq<u64>) -> Option<Set<u64>>
    decreases ids.len(),
{
    if ids.len() == 0 {
        Some(Set::empty())
    } else {
        match select_in_turn(n, ids.drop_last()) {
            None => None,
            Some(s) => if s.len() + 1 == n && !s.contains(ids.last()) {
                None
            } else {
                Some(s.insert(ids.last()))
            },
        }
    }
}

proof fn lemma_select_in_turn_finite(n: nat, ids: Seq<u64>)
    ensures
        select_in_turn(n, ids) matches Some(s) ==> s.finite(),
    decreases ids.len(),
{
    if ids.len() > 0 {
        lemma_select_in_turn_finite(n, ids.drop_last());
    }
}

/// Reads a stored group back from its file rows (in stored order). Rows are
/// read in order and the first unreadable one is reported; a negative group
/// id, fewer than two rows, or a stored selection that would select every
/// file is refused.
pub fn group_from_rows(id: i64, file_size: u64, rows: Vec<FileRow>) -> (r: Result<
    DuplicateGroup,
    StorageError,
>)
    ensures
        first_row_error(rows@) matches Some(e) ==> r == Err::<DuplicateGroup, StorageError>(e),
        first_row_error(rows@) is None && id < 0 ==> r == Err::<DuplicateGroup, StorageError>(
            StorageError::Column(ColumnError::IntegralValueOutOfRange { column: 0, value: id }),
        ),
        first_row_error(rows@) is None && id >= 0 && rows@.len() < 2 ==> r == Err::<
            DuplicateGroup,
            StorageError,
        >(StorageError::InvalidTime),
        first_row_error(rows@) is None && id >= 0 && rows@.len() >= 2 && select_in_turn(
            rows@.len(),
            selected_row_ids(rows@),
        ) is None ==> r == Err::<DuplicateGroup, StorageError>(StorageError::InvalidTime),
        first_row_error(rows@) is None && id >= 0 && rows@.len() >= 2 && select_in_turn(
            rows@.len(),
            selected_row_ids(rows@),
        ) is Some ==> r is Ok,
        r matches Ok(g) ==> {
            &&& g.id == GroupId(id as u64)
            &&& g.file_size == file_size
            &&& g.files@.len() == rows@.len()
            &&& forall|i: int| 0 <= i < rows@.len() ==> file_of_row(#[trigger] g.files@[i], rows@[i])
            &&& select_in_turn(rows@.len(), selected_row_ids(rows@)) == Some(g.selection())
        },
{
    let mut files: Vec<DuplicateFile> = Vec::new();
    let mut chosen: Vec<u64> = Vec::new();
    let mut i: usize = 0;
    while i < rows.len()
        invariant
            0 <= i <= rows@.len(),
            first_row_error(rows@.take(i as int)) is None,
            files@.len() == i,
            forall|k: int| 0 <= k < i ==> file_of_row(#[trigger] files@[k], rows@[k]),
            chosen@ == selected_row_ids(rows@.take(i as int)),
            forall|k: int| 0 <= k < chosen@.len() ==> has_file(files@, #[trigger] chosen@[k]),
        decreases rows@.len() - i,
    {
        let row = &rows[i];
        let ghost t = rows@.take(i + 1);
        assert(t.drop_last() =~= rows@.take(i as int));
        assert(t.last() == rows@[i as int]);
        let fid = match i64_to_u64(row.id) {
            Ok(v) => v,
            Err(e) => {
                proof {
                    lemma_first_error_prefix(rows@, i + 1);
                }
                return Err(StorageError::Column(e));
            },
        };
        let path = match decode_path(row.path.as_slice()) {
            Ok(p) => p,
            Err(e) => {
                proof {
                    lemma_first_error_prefix(rows@, i + 1);
                }
                return Err(e);
            },
        };
        let size = match i64_to_u64(row.size) {
            Ok(v) => v,
            Err(e) => {
                proof {
                    lemma_first_error_prefix(rows@, i + 1);
                }
                return Err(StorageError::Column(e));
            },
        };
        let modified = match row.modified_nanos {
            Some(n) => match nanos_to_time(n) {
                Ok(t) => Some(t),
                Err(e) => {
                    proof {
                        lemma_first_error_prefix(rows@, i + 1);
                    }
                    return Err(StorageError::Column(e));
                },
            },
            None => match row.modified_millis {
                Some(m) => match millis_to_time(m) {
                    Ok(t) => Some(t),
                    Err(e) => {
                        proof {
                            lemma_first_error_prefix(rows@, i + 1);
                        }
                        return Err(StorageError::Column(e));
                    },
                },
                None => None,
            },
        };
        let ghost old_files = files@;
        let ghost old_chosen = chosen@;
        if row.selected {
            chosen.push(fid);
        }
        files.push(DuplicateFile { id: DuplicateFileId(fid), path, size, modified });
        proof {
            assert forall|k: int| 0 <= k < chosen@.len() implies has_file(files@, #[trigger] chosen@[k]) by {
                if k < old_chosen.len() {
                    assert(chosen@[k] == old_chosen[k]);
                    assert(has_file(old_files, old_chosen[k]));
                    let j = choose|j: int| 0 <= j < old_files.len() && #[trigger] old_files[j].id.0 == old_chosen[k];
                    assert(files@[j] == old_files[j]);
                } else {
                    assert(files@[i as int].id.0 == chosen@[k]);
                }
            }
        }
        i = i + 1;
    }
    assert(rows@.take(rows@.len() as int) =~= rows@);
    let gid = match i64_to_u64(id) {
        Ok(v) => v,
        Err(e) => {
            return Err(StorageError::Column(e));
        },
    };
    let ghost n = rows@.len();
    let mut group = match DuplicateGroup::new(GroupId(gid), file_size, files) {
        Ok(g) => g,
        Err(_) => {
            return Err(StorageError::InvalidTime);
        },
    };
    let ghost all = chosen@;
    let mut k: usize = 0;
    while k < chosen.len()
        invariant
            0 <= k <= chosen@.len(),
            all == chosen@,
            all == selected_row_ids(rows@),
            first_row_error(rows@) is None,
            id >= 0,
            gid == id as u64,
            n == rows@.len(),
            n == group.files@.len(),
            forall|j: int| 0 <= j < rows@.len() ==> file_of_row(#[trigger] group.files@[j], rows@[j]),
            group.id == GroupId(gid),
            group.file_size == file_size,
            forall|j: int| 0 <= j < all.len() ==> has_file(group.files@, #[trigger] all[j]),
            select_in_turn(n, all.take(k as int)) == Some(group.selection()),
            group.selection().finite(),
        decreases chosen@.len() - k,
    {
        let sid = chosen[k];
        assert(all.take(k + 1).drop_last() =~= all.take(k as int));
        assert(all.take(k + 1).last() == sid);
        match group.set_selected(DuplicateFileId(sid), true) {
            Ok(()) => {},
            Err(_) => {
                proof {
                    lemma_select_in_turn_none(n, all, (k + 1) as int);
                }
                return Err(StorageError::InvalidTime);
            },
        }
        k = k + 1;
    }
    assert(all.take(all.len() as int) =~= all);
    Ok(group)
}

proof fn lemma_first_error_prefix(rows: Seq<FileRow>, n: int)
    requires
        0 <= n <= rows.len(),
        first_row_error(rows.take(n)) is Some,
    ensures
        first_row_error(rows) == first_row_error(rows.take(n)),
    decreases rows.len() - n,
{
    if n < rows.len() {
        assert(rows.take(n + 1).drop_last() =~= rows.take(n));
        lemma_first_error_prefix(rows, n + 1);
    } else {
        assert(rows.take(n) =~= rows);
    }
}

proof fn lemma_select_in_turn_none(n: nat, ids: Seq<u64>, k: int)
    requires
        0 <= k <= ids.len(),
        select_in_turn(n, ids.take(k)) is None,
    ensures
        select_in_turn(n, ids) is None,
    decreases ids.len() - k,
{
    if k < ids.len() {
        assert(ids.take(k + 1).drop_last() =~= ids.take(k));
        lemma_select_in_turn_none(n, ids, k + 1);
    } else {
        assert(ids.take(k) =~= ids);
    }
}

/// The column values of a new scan.
#[derive(Clone, Debug, PartialEq, Eq)]
pub struct ScanRow {
    pub name: Option<String>,
    pub started_at: i64,
    pub min_size: Option<i64>,
    pub max_size: Option<i64>,
    pub cache: i64,
}

/// The column values of a scan root.
#[derive(Clone, Debug, PartialEq, Eq)]
pub struct PathRow {
    pub path: Vec<u8>,
    pub preferred: i64,
}

/// The column values of a new duplicate file.
#[derive(Clone, Debug, PartialEq, Eq)]
pub struct NewFileRow {
    pub path: Vec<u8>,
    pub size: i64,
    pub modified_millis: Option<i64>,
    pub modified_nanos: Option<i64>,
    pub selected: i64,
}

/// An optional size as a column, refused above `i64::MAX`.
pub open spec fn size_column_ok(v: Option<u64>) -> bool {
    match v {
        Some(x) => x <= i64::MAX,
        None => true,
    }
}

fn optional_size(v: Option<u64>) -> (r: Result<Option<i64>, StorageError>)
    ensures
        size_column_ok(v) ==> r == Ok::<Option<i64>, StorageError>(
            match v {
                Some(x) => Some(x as i64),
                None => None,
            },
        ),
        !size_column_ok(v) ==> r == Err::<Option<i64>, StorageError>(StorageError::InvalidTime),
{
    match v {
        Some(x) => match u64_to_i64(x) {
            Ok(y) => Ok(Some(y)),
            Err(e) => Err(e),
        },
        None => Ok(None),
    }
}

fn copy_text(s: &Option<String>) -> (r: Option<String>)
    ensures
        r is Some <==> s is Some,
        r matches Some(t) ==> t@ == s->0@,
{
    match s {
        Some(t) => Some(t.clone()),
        None => None,
    }
}

/// The column values of a new scan: its start in milliseconds and its
/// size limits, each refused when out of the column's range.
pub fn scan_row(scan: &NewScan) -> (r: Result<ScanRow, StorageError>)
    ensures
        !(scan.started_at.nanos >= 0 && spec_millis(scan.started_at) <= i64::MAX)
            || !size_column_ok(scan.settings.min_size) || !size_column_ok(scan.settings.max_size)
            <==> r is Err,
        r is Err ==> r == Err::<ScanRow, StorageError>(StorageError::InvalidTime),
        r matches Ok(row) ==> {
            &&& row.name is Some <==> scan.name is Some
            &&& row.name matches Some(n) ==> n@ == scan.name->0@
            &&& row.started_at == spec_millis(scan.started_at)
            &&& row.min_size == match scan.settings.min_size {
                Some(x) => Some(x as i64),
                None => None,
            }
            &&& row.max_size == match scan.settings.max_size {
                Some(x) => Some(x as i64),
                None => None,
            }
            &&& row.cache == if scan.settings.cache {
                1i64
            } else {
                0i64
            }
        },
{
    let started_at = time_to_millis(scan.started_at)?;
    let min_size = optional_size(scan.settings.min_size)?;
    let max_size = optional_size(scan.settings.max_size)?;
    let cache: i64 = if scan.settings.cache {
        1
    } else {
        0
    };
    Ok(ScanRow { name: copy_text(&scan.name), started_at, min_size, max_size, cache })
}

/// The column values of the scan roots, in order.
pub fn path_rows(paths: &[ScanPath]) -> (r: Vec<PathRow>)
    ensures
        r@.len() == paths@.len(),
        forall|i: int|
            0 <= i < paths@.len() ==> {
                &&& (#[trigger] r@[i]).path@ == encoded_path(paths@[i].path@)
                &&& r@[i].preferred == if paths@[i].preferred {
                    1i64
                } else {
                    0i64
                }
            },
{
    let mut out: Vec<PathRow> = Vec::new();
    let mut i: usize = 0;
    while i < paths.len()
        invariant
            0 <= i <= paths@.len(),
            out@.len() == i,
            forall|k: int|
                0 <= k < i ==> {
                    &&& (#[trigger] out@[k]).path@ == encoded_path(paths@[k].path@)
                    &&& out@[k].preferred == if paths@[k].preferred {
                        1i64
                    } else {
                        0i64
                    }
                },
        decreases paths@.len() - i,
    {
        let preferred: i64 = if paths[i].preferred {
            1
        } else {
            0
        };
        out.push(PathRow { path: encode_path(paths[i].path.as_slice()), preferred });
        i = i + 1;
    }
    out
}

/// Whether `row` holds the column values of `file`: its encoded path, its
/// size, its modification time in milliseconds and in nanoseconds, and
/// whether it is selected as 1 or 0.
pub open spec fn written_from(row: NewFileRow, file: DuplicateFile, selected: bool) -> bool {
    &&& row.path@ == encoded_path(file.path@)
    &&& row.size == file.size as i64
    &&& row.modified_millis == match file.modified {
        Some(t) => Some(spec_millis(t) as i64),
        None => None,
    }
    &&& row.modified_nanos == match file.modified {
        Some(t) => Some(t.nanos as i64),
        None => None,
    }
    &&& row.selected == if selected {
        1i64
    } else {
        0i64
    }
}

/// Whether a file row read back from the database is the row written as
/// `new` and stored under the row id `id`.
pub open spec fn stored_as(r: FileRow, new: NewFileRow, id: i64) -> bool {
    &&& r.id == id
    &&& r.path@ == new.path@
    &&& r.size == new.size
    &&& r.modified_millis == new.modified_millis
    &&& r.modified_nanos == new.modified_nanos
    &&& r.selected == (new.selected != 0)
}

/// Whether a file's columns fit: what [`file_row`] accepts.
pub open spec fn file_fits(f: DuplicateFile) -> bool {
    &&& f.size <= i64::MAX
    &&& f.modified matches Some(t) ==> 0 <= t.nanos <= i64::MAX
}

proof fn lemma_no_row_error(rows: Seq<FileRow>)
    requires
        forall|i: int| 0 <= i < rows.len() ==> row_error(#[trigger] rows[i]) is None,
    ensures
        first_row_error(rows) is None,
    decreases rows.len(),
{
    if rows.len() > 0 {
        let d = rows.drop_last();
        assert forall|i: int| 0 <= i < d.len() implies row_error(#[trigger] d[i]) is None by {
            assert(d[i] == rows[i]);
        }
        lemma_no_row_error(d);
        assert(row_error(rows[rows.len() - 1]) is None);
    }
}

/// Whether some row has the id `v`.
spec fn some_row_has(rows: Seq<FileRow>, v: u64) -> bool {
    exists|i: int| 0 <= i < rows.len() && #[trigger] rows[i].id as u64 == v
}

proof fn lemma_selected_rows(rows: Seq<FileRow>, files: Seq<DuplicateFile>, sel: Set<u64>)
    requires
        rows.len() == files.len(),
        forall|i: int| 0 <= i < rows.len() ==> (#[trigger] rows[i]).selected == sel.contains(files[i].id.0),
        forall|i: int| 0 <= i < rows.len() ==> (#[trigger] rows[i]).id >= 0,
        forall|i: int, j: int| 0 <= i < rows.len() && 0 <= j < rows.len() && i != j ==> rows[i].id != rows[j].id,
    ensures
        selected_row_ids(rows).len() == files_in(files, sel).len(),
        selected_row_ids(rows).no_duplicates(),
        forall|k: int| 0 <= k < selected_row_ids(rows).len() ==> some_row_has(rows, #[trigger] selected_row_ids(rows)[k]),
        forall|i: int| 0 <= i < rows.len() ==> selected_row_ids(rows).contains(#[trigger] rows[i].id as u64) == rows[i].selected,
    decreases rows.len(),
{
    if rows.len() > 0 {
        let n = rows.len();
        let d = rows.drop_last();
        let fd = files.drop_last();
        assert forall|i: int| 0 <= i < d.len() implies (#[trigger] d[i]).selected == sel.contains(fd[i].id.0) by {
            assert(d[i] == rows[i] && fd[i] == files[i]);
        }
        assert forall|i: int| 0 <= i < d.len() implies (#[trigger] d[i]).id >= 0 by {
            assert(d[i] == rows[i]);
        }
        assert forall|i: int, j: int| 0 <= i < d.len() && 0 <= j < d.len() && i != j implies d[i].id != d[j].id by {
            assert(d[i] == rows[i] && d[j] == rows[j]);
        }
        lemma_selected_rows(d, fd, sel);
        let sd = selected_row_ids(d);
        let last = rows[n - 1];
        assert(rows.last() == last);
        assert(files.last() == files[n - 1]);
        assert(!sd.contains(last.id as u64)) by {
            if sd.contains(last.id as u64) {
                let k = choose|k: int| 0 <= k < sd.len() && sd[k] == last.id as u64;
                assert(some_row_has(d, sd[k]));
                let i = choose|i: int| 0 <= i < d.len() && #[trigger] d[i].id as u64 == sd[k];
                assert(d[i] == rows[i]);
                assert(rows[i].id != rows[n - 1].id);
            }
        }
        let s = selected_row_ids(rows);
        assert forall|k: int| 0 <= k < s.len() implies some_row_has(rows, #[trigger] s[k]) by {
            if k < sd.len() {
                assert(s[k] == sd[k]);
                assert(some_row_has(d, sd[k]));
                let i = choose|i: int| 0 <= i < d.len() && #[trigger] d[i].id as u64 == sd[k];
                assert(d[i] == rows[i]);
            } else {
                assert(rows[n - 1].id as u64 == s[k]);
            }
        }
        assert forall|i: int| 0 <= i < rows.len() implies s.contains(#[trigger] rows[i].id as u64) == rows[i].selected by {
            if i < n - 1 {
                assert(d[i] == rows[i]);
                assert(sd.contains(d[i].id as u64) == d[i].selected);
                assert(rows[i].id != rows[n - 1].id);
                if last.selected {
                    assert(s =~= sd.push(last.id as u64));
                    if s.contains(rows[i].id as u64) {
                        let k = choose|k: int| 0 <= k < s.len() && s[k] == rows[i].id as u64;
                        if k < sd.len() {
                            assert(sd[k] == s[k]);
                        }
                    }
                    if sd.contains(rows[i].id as u64) {
                        let k = choose|k: int| 0 <= k < sd.len() && sd[k] == rows[i].id as u64;
                        assert(s[k] == sd[k]);
                    }
                }
            } else {
                if last.selected {
                    assert(s[s.len() - 1] == last.id as u64);
                }
            }
        }
    }
}

proof fn lemma_select_distinct(n: nat, ids: Seq<u64>)
    requires
        ids.no_duplicates(),
        ids.len() < n,
    ensures
        select_in_turn(n, ids) == Some(ids.to_set()),
    decreases ids.len(),
{
    if ids.len() == 0 {
        assert(ids.to_set() =~= Set::<u64>::empty());
    } else {
        let d = ids.drop_last();
        assert(d.no_duplicates()) by {
            assert forall|i: int, j: int| 0 <= i < d.len() && 0 <= j < d.len() && i != j implies d[i] != d[j] by {
                assert(d[i] == ids[i] && d[j] == ids[j]);
            }
        }
        lemma_select_distinct(n, d);
        d.unique_seq_to_set();
        assert(ids.to_set() =~= d.to_set().insert(ids.last())) by {
            assert forall|v: u64| ids.to_set().contains(v) implies d.to_set().contains(v) || v == ids.last() by {
                let k = choose|k: int| 0 <= k < ids.len() && ids[k] == v;
                if k < d.len() {
                    assert(d[k] == ids[k]);
                }
            }
            assert forall|v: u64| d.to_set().contains(v) implies ids.to_set().contains(v) by {
                let k = choose|k: int| 0 <= k < d.len() && d[k] == v;
                assert(ids[k] == d[k]);
            }
            assert(ids[ids.len() - 1] == ids.last());
        }
    }
}

/// A duplicate group written as rows and read back is the same group: when
/// each file's row was written by [`file_row`] with the file's selection
/// and the database stored row `i` under the distinct id `ids[i]`, the rows
/// read back contain no unreadable value, each stands for a file with the
/// path, size and modification time of the written one (the nanosecond
/// column is exact) and the database's id, and the stored selection selects
/// exactly the rows of the selected files. With [`group_from_rows`] this
/// gives back the group with the database's ids and the same selection.
pub proof fn law_group_rows_read_back(
    g: DuplicateGroup,
    ids: Seq<i64>,
    written: Seq<NewFileRow>,
    rows: Seq<FileRow>,
)
    requires
        g.well_formed(),
        distinct_ids(g.files@),
        ids.len() == g.files@.len(),
        written.len() == g.files@.len(),
        rows.len() == g.files@.len(),
        forall|i: int| 0 <= i < g.files@.len() ==> file_fits(#[trigger] g.files@[i]),
        forall|i: int| 0 <= i < ids.len() ==> #[trigger] ids[i] >= 0,
        forall|i: int, j: int| 0 <= i < ids.len() && 0 <= j < ids.len() && i != j ==> ids[i] != ids[j],
        forall|i: int|
            0 <= i < written.len() ==> written_from(
                #[trigger] written[i],
                g.files@[i],
                g.selection().contains(g.files@[i].id.0),
            ),
        forall|i: int| 0 <= i < rows.len() ==> stored_as(#[trigger] rows[i], written[i], ids[i]),
    ensures
        first_row_error(rows) is None,
        rows.len() >= 2,
        select_in_turn(rows.len(), selected_row_ids(rows)) matches Some(s) && forall|i: int|
            0 <= i < rows.len() ==> s.contains(#[trigger] ids[i] as u64) == g.selection().contains(
                g.files@[i].id.0,
            ),
        forall|i: int, f: DuplicateFile|
            0 <= i < rows.len() && #[trigger] file_of_row(f, rows[i]) ==> {
                &&& f.id == DuplicateFileId(ids[i] as u64)
                &&& f.path@ == g.files@[i].path@
                &&& f.size == g.files@[i].size
                &&& f.modified == g.files@[i].modified
            },
{
    let files = g.files@;
    let sel = g.selection();
    assert forall|i: int| 0 <= i < rows.len() implies row_error(#[trigger] rows[i]) is None by {
        let f = files[i];
        assert(file_fits(f));
        assert(stored_as(rows[i], written[i], ids[i]));
        assert(written_from(written[i], f, sel.contains(f.id.0)));
        assert(rows[i].path@ == encoded_path(f.path@));
    }
    lemma_no_row_error(rows);
    assert forall|i: int, f: DuplicateFile|
        0 <= i < rows.len() && #[trigger] file_of_row(f, rows[i]) implies {
            &&& f.id == DuplicateFileId(ids[i] as u64)
            &&& f.path@ == g.files@[i].path@
            &&& f.size == g.files@[i].size
            &&& f.modified == g.files@[i].modified
        } by {
        let w = files[i];
        assert(file_fits(w));
        assert(stored_as(rows[i], written[i], ids[i]));
        assert(written_from(written[i], w, sel.contains(w.id.0)));
        assert(encoded_path(w.path@).drop_first() =~= w.path@);
        match w.modified {
            Some(t) => {
                assert(row_modified(rows[i]) == Some(Timestamp { nanos: (t.nanos as i64) as i128 }));
                assert(Timestamp { nanos: (t.nanos as i64) as i128 } == t);
            },
            None => {},
        }
    }
    assert forall|i: int| 0 <= i < rows.len() implies (#[trigger] rows[i]).selected == sel.contains(files[i].id.0) by {
        assert(stored_as(rows[i], written[i], ids[i]));
        assert(written_from(written[i], files[i], sel.contains(files[i].id.0)));
    }
    assert forall|i: int| 0 <= i < rows.len() implies (#[trigger] rows[i]).id >= 0 by {
        assert(stored_as(rows[i], written[i], ids[i]));
        assert(ids[i] >= 0);
    }
    assert forall|i: int, j: int| 0 <= i < rows.len() && 0 <= j < rows.len() && i != j implies rows[i].id != rows[j].id by {
        assert(stored_as(rows[i], written[i], ids[i]));
        assert(stored_as(rows[j], written[j], ids[j]));
    }
    lemma_selected_rows(rows, files, sel);
    lemma_files_in_count(files, sel);
    let sr = selected_row_ids(rows);
    lemma_select_distinct(rows.len(), sr);
    assert forall|i: int| 0 <= i < rows.len() implies sr.to_set().contains(#[trigger] ids[i] as u64) == sel.contains(files[i].id.0) by {
        assert(stored_as(rows[i], written[i], ids[i]));
        assert(sr.contains(rows[i].id as u64) == rows[i].selected);
    }
}

/// The column values of a duplicate file: its encoded path, its size, and
/// its modification time in milliseconds and in nanoseconds, each refused
/// when out of the column's range.
pub fn file_row(file: &DuplicateFile, selected: bool) -> (r: Result<NewFileRow, StorageError>)
    ensures
        r is Err <==> file.size > i64::MAX || (file.modified matches Some(t) && (t.nanos < 0
            || t.nanos > i64::MAX)),
        r is Err ==> r == Err::<NewFileRow, StorageError>(StorageError::InvalidTime),
        r matches Ok(row) ==> written_from(row, *file, selected),
{
    let path = encode_path(file.path.as_slice());
    let size = u64_to_i64(file.size)?;
    let modified_millis = match file.modified {
        Some(t) => Some(time_to_millis(t)?),
        None => None,
    };
    let modified_nanos = match file.modified {
        Some(t) => Some(time_to_nanos(t)?),
        None => None,
    };
    let selected: i64 = if selected {
        1
    } else {
        0
    };
    Ok(NewFileRow { path, size, modified_millis, modified_nanos, selected })
}

} // verus!
