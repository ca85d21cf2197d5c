//! The messages shown for errors and for a refused cleanup.
use crate::cleanup::{byte_views, CleanupError, CleanupPreflight};
use crate::models::{DuplicateFileId, SelectionError};
use crate::scanner::ScanError;
use crate::storage::{ColumnError, StorageError};
use crate::text::{decimal_chars, push_decimal};
use vstd::prelude::*;

verus! {

/// The text a path is displayed as: its bytes decoded as UTF-8, each
/// invalid sequence shown as U+FFFD.
pub uninterp spec fn path_display_text(bytes: Seq<u8>) -> Seq<char>;

/// Calls `String::from_utf8_lossy` on the path's bytes (and takes the text
/// out of the `Cow` it returns). That function decodes the bytes as UTF-8,
/// putting U+FFFD in place of each invalid sequence; the contract names the
/// result [`path_display_text`], a function of the bytes alone, and states
/// that bytes that are valid UTF-8 come back as the text they encode. How
/// invalid sequences are split into replacement characters is left unsaid.
#[verifier::external_body]
pub(crate) fn display_path(path: &[u8]) -> (r: String)
    ensures
        r@ == path_display_text(path@),
        vstd::utf8::valid_utf8(path@) ==> r@ == vstd::utf8::decode_utf8(path@),
{
    String::from_utf8_lossy(path).into_owned()
}

/// The decimal text of a signed number.
pub open spec fn signed_chars(v: int) -> Seq<char> {
    if v < 0 {
        "-"@ + decimal_chars((-v) as nat)
    } else {
        decimal_chars(v as nat)
    }
}

fn push_signed(out: &mut String, v: i64)
    ensures
        final(out)@ == old(out)@ + signed_chars(v as int),
{
    if v < 0 {
        out.append("-");
        push_decimal(out, (-(v as i128)) as u128);
    } else {
        push_decimal(out, v as u128);
    }
}

/// How a file id is written in a message.
pub open spec fn file_id_chars(id: DuplicateFileId) -> Seq<char> {
    "DuplicateFileId("@ + decimal_chars(id.0 as nat) + ")"@
}

fn push_file_id(out: &mut String, id: DuplicateFileId)
    ensures
        final(out)@ == old(out)@ + file_id_chars(id),
{
    out.append("DuplicateFileId(");
    push_decimal(out, id.0 as u128);
    out.append(")");
}

pub open spec fn selection_error_text(e: SelectionError) -> Seq<char> {
    match e {
        SelectionError::UnknownFile(id) => "file "@ + file_id_chars(id)
            + " is not in this duplicate group"@,
        SelectionError::WouldSelectEveryCopy => "a duplicate group must retain at least one file"@,
        SelectionError::NotDuplicate => "a duplicate group needs at least two files"@,
    }
}

pub open spec fn cleanup_error_text(e: CleanupError) -> Seq<char> {
    match e {
        CleanupError::InvalidSelection(s) => "invalid duplicate selection: "@
            + selection_error_text(s),
        CleanupError::UnsafePreflight { missing, changed } => "cleanup preflight rejected "@
            + decimal_chars(missing as nat) + " missing and "@ + decimal_chars(changed as nat)
            + " changed files"@,
    }
}

pub open spec fn scan_error_text(e: ScanError) -> Seq<char> {
    match e {
        ScanError::NoPaths => "at least one scan path is required"@,
        ScanError::InvalidSizeRange => "minimum size exceeds maximum size"@,
        ScanError::Cancelled => "scan cancelled"@,
        ScanError::Fclones(m) => "fclones scan failed: "@ + m@,
    }
}

pub open spec fn column_error_text(e: ColumnError) -> Seq<char> {
    match e {
        ColumnError::IntegralValueOutOfRange { column, value } => "Integer "@ + signed_chars(
            value as int,
        ) + " out of range at index "@ + decimal_chars(column as nat),
        ColumnError::InvalidStatus => "Invalid column type Text at index: 0, name: status"@,
    }
}

pub open spec fn storage_error_text(e: StorageError) -> Seq<char> {
    match e {
        StorageError::Database(m) => "database error: "@ + m@,
        StorageError::Column(c) => "database error: "@ + column_error_text(c),
        StorageError::ScanNotFound(id) => "scan "@ + signed_chars(id as int) + " does not exist"@,
        StorageError::FileNotFound(id) => "file "@ + file_id_chars(id) + " does not exist"@,
        StorageError::LastCopySelected { file_id } => "selecting file "@ + file_id_chars(file_id)
            + " would select every copy in its duplicate group"@,
        StorageError::InvalidTime => "system time is outside SQLite's supported range"@,
        StorageError::IncompatiblePath => "path data was not encoded for this operating system"@,
    }
}

impl SelectionError {
    /// The message for this error.
    pub fn message(&self) -> (r: String)
        ensures
            r@ == selection_error_text(*self),
    {
        let mut out = String::new();
        match self {
            SelectionError::UnknownFile(id) => {
                out.append("file ");
                push_file_id(&mut out, *id);
                out.append(" is not in this duplicate group");
            },
            SelectionError::WouldSelectEveryCopy => {
                out.append("a duplicate group must retain at least one file");
            },
            SelectionError::NotDuplicate => {
                out.append("a duplicate group needs at least two files");
            },
        }
        out
    }
}

impl CleanupError {
    /// The message for this error.
    pub fn message(&self) -> (r: String)
        ensures
            r@ == cleanup_error_text(*self),
    {
        match self {
            CleanupError::InvalidSelection(e) => {
                let mut out = String::from_str("invalid duplicate selection: ");
                let inner = e.message();
                out.append(inner.as_str());
                out
            },
            CleanupError::UnsafePreflight { missing, changed } => {
                let mut out = String::from_str("cleanup preflight rejected ");
                push_decimal(&mut out, *missing as u128);
                out.append(" missing and ");
                push_decimal(&mut out, *changed as u128);
                out.append(" changed files");
                out
            },
        }
    }
}

impl ScanError {
    /// The message for this error.
    pub fn message(&self) -> (r: String)
        ensures
            r@ == scan_error_text(*self),
    {
        match self {
            ScanError::NoPaths => String::from_str("at least one scan path is required"),
            ScanError::InvalidSizeRange => String::from_str("minimum size exceeds maximum size"),
            ScanError::Cancelled => String::from_str("scan cancelled"),
            ScanError::Fclones(m) => {
                let mut out = String::from_str("fclones scan failed: ");
                out.append(m.as_str());
                out
            },
        }
    }
}

impl ColumnError {
    /// The message for this error.
    pub fn message(&self) -> (r: String)
        ensures
            r@ == column_error_text(*self),
    {
        match self {
            ColumnError::IntegralValueOutOfRange { column, value } => {
                let mut out = String::from_str("Integer ");
                push_signed(&mut out, *value);
                out.append(" out of range at index ");
                push_decimal(&mut out, *column as u128);
                out
            },
            ColumnError::InvalidStatus => String::from_str(
                "Invalid column type Text at index: 0, name: status",
            ),
        }
    }
}

impl StorageError {
    /// The message for this error.
    pub fn message(&self) -> (r: String)
        ensures
            r@ == storage_error_text(*self),
    {
        let mut out = String::new();
        match self {
            StorageError::Database(m) => {
                out.append("database error: ");
                out.append(m.as_str());
            },
            StorageError::Column(c) => {
                out.append("database error: ");
                let inner = c.message();
                out.append(inner.as_str());
            },
            StorageError::ScanNotFound(id) => {
                out.append("scan ");
                push_signed(&mut out, *id);
                out.append(" does not exist");
            },
            StorageError::FileNotFound(id) => {
                out.append("file ");
                push_file_id(&mut out, *id);
                out.append(" does not exist");
            },
            StorageError::LastCopySelected { file_id } => {
                out.append("selecting file ");
                push_file_id(&mut out, *file_id);
                out.append(" would select every copy in its duplicate group");
            },
            StorageError::InvalidTime => {
                out.append("system time is outside SQLite's supported range");
            },
            StorageError::IncompatiblePath => {
                out.append("path data was not encoded for this operating system");
            },
        }
        out
    }
}

/// How one path is shown: the text its bytes encode when they are valid
/// UTF-8, else the lossy decoding [`path_display_text`].
pub open spec fn shown_path(bytes: Seq<u8>) -> Seq<char> {
    if vstd::utf8::valid_utf8(bytes) {
        vstd::utf8::decode_utf8(bytes)
    } else {
        path_display_text(bytes)
    }
}

/// The paths shown of a list: at most the first four, separated by `, `.
pub open spec fn shown_paths(paths: Seq<Seq<u8>>) -> Seq<char>
    decreases paths.len(),
{
    if paths.len() == 0 {
        Seq::empty()
    } else if paths.len() > 4 {
        shown_paths(paths.take(4))
    } else if paths.len() == 1 {
        shown_path(paths[0])
    } else {
        shown_paths(paths.drop_last()) + ", "@ + shown_path(paths.last())
    }
}

/// One line of a refusal: the label, the shown paths, and how many more
/// there are; nothing for an empty list.
pub open spec fn describe_paths(label: Seq<char>, paths: Seq<Seq<u8>>) -> Option<Seq<char>> {
    if paths.len() == 0 {
        None
    } else if paths.len() <= 4 {
        Some(label + ": "@ + shown_paths(paths))
    } else {
        Some(
            label + ": "@ + shown_paths(paths) + ", and "@ + decimal_chars((paths.len() - 4) as nat)
                + " more"@,
        )
    }
}

/// The missing and changed lines, joined by `. `.
pub open spec fn preflight_details(missing: Seq<Seq<u8>>, changed: Seq<Seq<u8>>) -> Seq<char> {
    match (describe_paths("Missing"@, missing), describe_paths("Changed"@, changed)) {
        (Some(a), Some(b)) => a + ". "@ + b,
        (Some(a), None) => a,
        (None, Some(b)) => b,
        (None, None) => Seq::empty(),
    }
}

/// The message shown when the preflight refuses a cleanup.
pub open spec fn preflight_failure_text(missing: Seq<Seq<u8>>, changed: Seq<Seq<u8>>) -> Seq<char> {
    "Cleanup stopped before removing any files because the selected files no longer match the scan. "@
        + preflight_details(missing, changed)
        + ". Refresh the results and review the selection; if this repeats, another application may be updating those files."@
}

fn push_shown_paths(out: &mut String, paths: &Vec<Vec<u8>>)
    ensures
        final(out)@ == old(out)@ + shown_paths(byte_views(paths@)),
{
    let ghost pv = byte_views(paths@);
    let n = if paths.len() > 4 {
        4
    } else {
        paths.len()
    };
    assert(shown_paths(pv) == shown_paths(pv.take(n as int))) by {
        if pv.len() <= 4 {
            assert(pv.take(n as int) =~= pv);
        }
    }
    let mut i: usize = 0;
    while i < n
        invariant
            0 <= i <= n <= 4,
            n <= paths@.len(),
            pv == byte_views(paths@),
            out@ == old(out)@ + shown_paths(pv.take(i as int)),
        decreases n - i,
    {
        let ghost t = pv.take(i + 1);
        assert(t.drop_last() =~= pv.take(i as int));
        assert(t.last() == paths@[i as int]@);
        if i > 0 {
            out.append(", ");
        } else {
            assert(pv.take(i as int) =~= Seq::<Seq<u8>>::empty());
        }
        let shown = display_path(paths[i].as_slice());
        out.append(shown.as_str());
        i = i + 1;
    }
}

fn push_description(out: &mut String, label: &str, paths: &Vec<Vec<u8>>)
    requires
        paths@.len() > 0,
    ensures
        final(out)@ == old(out)@ + describe_paths(label@, byte_views(paths@))->0,
{
    out.append(label);
    out.append(": ");
    push_shown_paths(out, paths);
    if paths.len() > 4 {
        out.append(", and ");
        push_decimal(out, (paths.len() - 4) as u128);
        out.append(" more");
    }
}

/// The message shown when the preflight refuses a cleanup: which files are
/// missing and which changed (at most four of each by name).
pub fn preflight_failure_message(preflight: &CleanupPreflight) -> (r: String)
    ensures
        r@ == preflight_failure_text(byte_views(preflight.missing@), byte_views(preflight.changed@)),
{
    let mut out = String::from_str(
        "Cleanup stopped before removing any files because the selected files no longer match the scan. ",
    );
    let has_missing = preflight.missing.len() > 0;
    let has_changed = preflight.changed.len() > 0;
    if has_missing {
        push_description(&mut out, "Missing", &preflight.missing);
    }
    if has_missing && has_changed {
        out.append(". ");
    }
    if has_changed {
        push_description(&mut out, "Changed", &preflight.changed);
    }
    out.append(
        ". Refresh the results and review the selection; if this repeats, another application may be updating those files.",
    );
    out
}

} // verus!
