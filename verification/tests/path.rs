use dupekit::path::{bytes_equal, components, copy_bytes, starts_with};

#[test]
fn components_skip_separators_and_dots() {
    assert_eq!(components(b"/a//b/./c/"), vec![b"/".to_vec(), b"a".to_vec(), b"b".to_vec(), b"c".to_vec()]);
    assert_eq!(components(b"a/b"), vec![b"a".to_vec(), b"b".to_vec()]);
}

#[test]
fn prefixes_match_whole_components() {
    assert!(starts_with(b"/preferred/b", b"/preferred"));
    assert!(starts_with(b"/preferred/b", b"/preferred/"));
    assert!(!starts_with(b"/preferredx/b", b"/preferred"));
    assert!(starts_with(b"/a/./b", b"/a/b"));
    assert!(!starts_with(b"a/b", b"/a"));
}

#[test]
fn bytes_compare_and_copy() {
    assert!(bytes_equal(b"abc", b"abc"));
    assert!(!bytes_equal(b"abc", b"abd"));
    assert_eq!(copy_bytes(b"xyz"), b"xyz".to_vec());
}
