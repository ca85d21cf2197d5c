use dupekit::models::{DuplicateFile, DuplicateFileId, Timestamp};
use dupekit::storage::ScanStatus;
use dupekit::text::{
    bytes_label, chars_equal, chars_of, decimal, format_scan_time, modified_label,
    scan_status_label, size_input_value,
};

#[test]
fn sizes_are_written_in_the_largest_fitting_unit() {
    assert_eq!(size_input_value(1), "1 B");
    assert_eq!(size_input_value(1_023), "1023 B");
    assert_eq!(size_input_value(1_024), "1 KB");
    assert_eq!(size_input_value(1_048_576), "1 MB");
    assert_eq!(size_input_value(1_310_720), "1.25 MB");
    assert_eq!(size_input_value(2_684_354_560), "2.5 GB");
    assert_eq!(size_input_value(1_536), "1.5 KB");
    assert_eq!(size_input_value(1_099_511_627_776), "1 TB");
    assert_eq!(size_input_value(0), "0 TB");
}

#[test]
fn eighths_are_written_with_three_decimals() {
    assert_eq!(size_input_value(1_152), "1.125 KB");
    assert_eq!(size_input_value(1_408), "1.375 KB");
}

#[test]
fn byte_labels_round_to_one_decimal() {
    assert_eq!(bytes_label(0), "0 B");
    assert_eq!(bytes_label(512), "512 B");
    assert_eq!(bytes_label(1_023), "1023 B");
    assert_eq!(bytes_label(1_024), "1.0 KB");
    assert_eq!(bytes_label(1_536), "1.5 KB");
    assert_eq!(bytes_label(1_126), "1.1 KB");
    assert_eq!(bytes_label(1_048_576), "1.0 MB");
    assert_eq!(bytes_label(2_251_799_813_685_248), "2048.0 TB");
}

#[test]
fn status_labels() {
    assert_eq!(scan_status_label(ScanStatus::Running), "Running");
    assert_eq!(scan_status_label(ScanStatus::Completed), "Completed");
    assert_eq!(scan_status_label(ScanStatus::Failed), "Failed");
    assert_eq!(scan_status_label(ScanStatus::Cancelled), "Cancelled");
}

#[test]
fn scan_times_are_whole_seconds_since_the_epoch() {
    assert_eq!(format_scan_time(Timestamp { nanos: 12_345_000_000 }), "12 UTC");
    assert_eq!(format_scan_time(Timestamp { nanos: 0 }), "0 UTC");
    assert_eq!(format_scan_time(Timestamp { nanos: -1 }), "Unknown date");
}

#[test]
fn modified_labels_count_whole_days() {
    let mut f = DuplicateFile {
        id: DuplicateFileId(1),
        path: b"/a".to_vec(),
        size: 1,
        modified: Some(Timestamp { nanos: (3 * 86_400 + 5) * 1_000_000_000 }),
    };
    assert_eq!(modified_label(&f), "Unix + 3 days");
    f.modified = None;
    assert_eq!(modified_label(&f), "unknown date");
    f.modified = Some(Timestamp { nanos: -10 });
    assert_eq!(modified_label(&f), "unknown date");
}

#[test]
fn decimals_and_characters() {
    assert_eq!(decimal(0), "0");
    assert_eq!(decimal(u64::MAX), "18446744073709551615");
    assert_eq!(chars_of("ab·"), vec!['a', 'b', '·']);
    assert!(chars_equal(&['o', 'k'], "ok"));
    assert!(!chars_equal(&['o'], "ok"));
}
