use dupekit::models::{DuplicateFile, DuplicateFileId, GroupId, ScanPath, Timestamp};
use dupekit::storage::{
    decode_path, encode_path, file_row, group_from_rows, i64_to_u64, millis_to_time,
    nanos_to_time, path_rows, scan_row, time_to_millis, time_to_nanos, u64_to_i64, ColumnError,
    FileRow, NewScan, ScanSettings, ScanStatus, StorageError,
};

fn row(id: i64, path: &[u8], selected: bool) -> FileRow {
    FileRow {
        id,
        path: encode_path(path),
        size: 20,
        modified_millis: Some(3_000),
        modified_nanos: Some(3_000_000_123),
        selected,
    }
}

#[test]
fn paths_round_trip_including_invalid_utf8() {
    let path = b"/tmp/a bad \xff name".to_vec();
    let stored = encode_path(&path);
    assert_eq!(stored[0], 0);
    assert_eq!(decode_path(&stored), Ok(path));
    let accented = "/photos/été a.jpg".as_bytes().to_vec();
    assert_eq!(decode_path(&encode_path(&accented)), Ok(accented));
}

#[test]
fn blob_without_the_tag_is_refused() {
    assert_eq!(decode_path(b"/plain"), Err(StorageError::IncompatiblePath));
    assert_eq!(decode_path(b""), Err(StorageError::IncompatiblePath));
    assert_eq!(decode_path(&[0]), Ok(vec![]));
}

#[test]
fn times_are_stored_in_milliseconds_and_nanoseconds() {
    let t = Timestamp { nanos: 4_000_123_456 };
    assert_eq!(time_to_millis(t), Ok(4_000));
    assert_eq!(time_to_nanos(t), Ok(4_000_123_456));
    assert_eq!(millis_to_time(4_000), Ok(Timestamp { nanos: 4_000_000_000 }));
    assert_eq!(nanos_to_time(4_000_123_456), Ok(t));
}

#[test]
fn times_outside_the_columns_are_refused() {
    assert_eq!(time_to_millis(Timestamp { nanos: -1 }), Err(StorageError::InvalidTime));
    assert_eq!(time_to_nanos(Timestamp { nanos: -1 }), Err(StorageError::InvalidTime));
    assert_eq!(
        time_to_nanos(Timestamp { nanos: i64::MAX as i128 + 1 }),
        Err(StorageError::InvalidTime)
    );
    assert_eq!(
        millis_to_time(-5),
        Err(ColumnError::IntegralValueOutOfRange { column: 0, value: -5 })
    );
    assert_eq!(
        nanos_to_time(-5),
        Err(ColumnError::IntegralValueOutOfRange { column: 0, value: -5 })
    );
}

#[test]
fn unsigned_columns_refuse_out_of_range_values() {
    assert_eq!(u64_to_i64(42), Ok(42));
    assert_eq!(u64_to_i64(u64::MAX), Err(StorageError::InvalidTime));
    assert_eq!(i64_to_u64(42), Ok(42));
    assert_eq!(
        i64_to_u64(-1),
        Err(ColumnError::IntegralValueOutOfRange { column: 0, value: -1 })
    );
}

#[test]
fn statuses_round_trip() {
    for s in [ScanStatus::Running, ScanStatus::Completed, ScanStatus::Failed, ScanStatus::Cancelled]
    {
        assert_eq!(ScanStatus::parse(s.as_str()), Ok(s));
    }
    assert_eq!(ScanStatus::Completed.as_str(), "completed");
    assert_eq!(ScanStatus::parse("done"), Err(ColumnError::InvalidStatus));
}

#[test]
fn default_settings_are_one_megabyte_with_cache() {
    assert_eq!(
        ScanSettings::default(),
        ScanSettings { min_size: Some(1_048_576), max_size: None, cache: true }
    );
}

#[test]
fn scan_row_holds_columns() {
    let scan = NewScan {
        name: Some("Saved scan".to_string()),
        started_at: Timestamp { nanos: 2_500_000_000 },
        paths: vec![],
        settings: ScanSettings { min_size: Some(10), max_size: None, cache: false },
    };
    let r = scan_row(&scan).unwrap();
    assert_eq!(r.name, Some("Saved scan".to_string()));
    assert_eq!(r.started_at, 2_500);
    assert_eq!(r.min_size, Some(10));
    assert_eq!(r.max_size, None);
    assert_eq!(r.cache, 0);
    let too_big = NewScan {
        settings: ScanSettings { min_size: None, max_size: Some(u64::MAX), cache: true },
        ..scan
    };
    assert_eq!(scan_row(&too_big), Err(StorageError::InvalidTime));
}

#[test]
fn path_rows_encode_each_root() {
    let rows = path_rows(&[
        ScanPath { path: b"/a".to_vec(), preferred: true },
        ScanPath { path: b"/b".to_vec(), preferred: false },
    ]);
    assert_eq!(rows.len(), 2);
    assert_eq!(rows[0].path, vec![0, b'/', b'a']);
    assert_eq!(rows[0].preferred, 1);
    assert_eq!(rows[1].preferred, 0);
}

#[test]
fn file_row_holds_columns() {
    let f = DuplicateFile {
        id: DuplicateFileId(9),
        path: b"/x".to_vec(),
        size: 20,
        modified: Some(Timestamp { nanos: 3_000_000_123 }),
    };
    let r = file_row(&f, true).unwrap();
    assert_eq!(r.path, vec![0, b'/', b'x']);
    assert_eq!(r.size, 20);
    assert_eq!(r.modified_millis, Some(3_000));
    assert_eq!(r.modified_nanos, Some(3_000_000_123));
    assert_eq!(r.selected, 1);
    let early = DuplicateFile { modified: Some(Timestamp { nanos: -1 }), ..f };
    assert_eq!(file_row(&early, false), Err(StorageError::InvalidTime));
}

#[test]
fn group_reads_back_from_rows() {
    let g = group_from_rows(4, 20, vec![row(1, b"/a", true), row(2, b"/b", false)]).unwrap();
    assert_eq!(g.id, GroupId(4));
    assert_eq!(g.file_size, 20);
    assert_eq!(g.files[0].id, DuplicateFileId(1));
    assert_eq!(g.files[0].path, b"/a".to_vec());
    assert_eq!(g.files[0].modified, Some(Timestamp { nanos: 3_000_000_123 }));
    assert!(g.is_selected(DuplicateFileId(1)));
    assert!(!g.is_selected(DuplicateFileId(2)));
}

#[test]
fn millisecond_time_is_used_without_nanoseconds() {
    let mut r = row(1, b"/a", false);
    r.modified_nanos = None;
    let g = group_from_rows(4, 20, vec![r, row(2, b"/b", false)]).unwrap();
    assert_eq!(g.files[0].modified, Some(Timestamp { nanos: 3_000_000_000 }));
}

#[test]
fn stored_selection_of_every_copy_is_refused() {
    let rows = vec![row(1, b"/a", true), row(2, b"/b", true)];
    assert_eq!(group_from_rows(4, 20, rows), Err(StorageError::InvalidTime));
}

#[test]
fn unreadable_rows_are_refused() {
    assert_eq!(
        group_from_rows(4, 20, vec![row(-3, b"/a", false), row(2, b"/b", false)]),
        Err(StorageError::Column(ColumnError::IntegralValueOutOfRange { column: 0, value: -3 }))
    );
    let mut bad = row(1, b"/a", false);
    bad.path = b"/a".to_vec();
    assert_eq!(
        group_from_rows(4, 20, vec![bad, row(2, b"/b", false)]),
        Err(StorageError::IncompatiblePath)
    );
    assert_eq!(
        group_from_rows(4, 20, vec![row(1, b"/a", false)]),
        Err(StorageError::InvalidTime)
    );
    assert_eq!(
        group_from_rows(-4, 20, vec![row(1, b"/a", false), row(2, b"/b", false)]),
        Err(StorageError::Column(ColumnError::IntegralValueOutOfRange { column: 0, value: -4 }))
    );
}

#[test]
fn a_group_written_as_rows_reads_back_with_database_ids() {
    let files = vec![
        DuplicateFile {
            id: DuplicateFileId(1),
            path: "/photos/été a.jpg".as_bytes().to_vec(),
            size: 20,
            modified: Some(Timestamp { nanos: 2_123_456_789 }),
        },
        DuplicateFile {
            id: DuplicateFileId(2),
            path: "/backup/été a.jpg".as_bytes().to_vec(),
            size: 20,
            modified: None,
        },
    ];
    let mut g = dupekit::models::DuplicateGroup::new(GroupId(9), 20, files).unwrap();
    g.set_selected(DuplicateFileId(2), true).unwrap();
    let ids = [41i64, 57];
    let rows: Vec<FileRow> = g
        .files
        .iter()
        .zip(ids)
        .map(|(f, id)| {
            let w = file_row(f, g.is_selected(f.id)).unwrap();
            FileRow {
                id,
                path: w.path,
                size: w.size,
                modified_millis: w.modified_millis,
                modified_nanos: w.modified_nanos,
                selected: w.selected != 0,
            }
        })
        .collect();
    let h = group_from_rows(3, g.file_size, rows).unwrap();
    assert_eq!(h.id, GroupId(3));
    assert_eq!(h.file_size, 20);
    for (i, f) in h.files.iter().enumerate() {
        assert_eq!(f.id, DuplicateFileId(ids[i] as u64));
        assert_eq!(f.path, g.files[i].path);
        assert_eq!(f.size, g.files[i].size);
        assert_eq!(f.modified, g.files[i].modified);
        assert_eq!(h.is_selected(f.id), g.is_selected(g.files[i].id));
    }
}
