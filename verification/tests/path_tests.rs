use lanshare::path::{is_plain_name, RelPath};

#[test]
fn parent_segments_cannot_escape_root() {
    assert_eq!(RelPath::sanitize("../../secret").join_str(), "secret");
    assert_eq!(RelPath::sanitize("../..").join_str(), "");
    assert_eq!(RelPath::sanitize("a/.././b").join_str(), "a/b");
    assert_eq!(RelPath::sanitize("..\\..\\x").join_str(), "x");
}

#[test]
fn absolute_and_drive_prefixes_are_dropped() {
    assert_eq!(RelPath::sanitize("/etc/passwd").join_str(), "etc/passwd");
    assert_eq!(RelPath::sanitize("C:\\win\\file").join_str(), "win/file");
}

#[test]
fn empty_and_repeated_separators_collapse() {
    assert_eq!(RelPath::sanitize("").join_str(), "");
    assert_eq!(RelPath::sanitize("a//b/").join_str(), "a/b");
    assert_eq!(RelPath::sanitize("///").join_str(), "");
}

#[test]
fn ordinary_paths_pass_through() {
    assert_eq!(RelPath::sanitize("docs/guide.pdf").join_str(), "docs/guide.pdf");
    assert_eq!(RelPath::sanitize("one").join_str(), "one");
}

#[test]
fn plain_names_are_single_segments() {
    assert!(is_plain_name("ok.txt"));
    assert!(is_plain_name("with space"));
    assert!(!is_plain_name("."));
    assert!(!is_plain_name(".."));
    assert!(!is_plain_name("a/b"));
    assert!(!is_plain_name("a\\b"));
    assert!(!is_plain_name(""));
}

#[test]
fn pushed_segments_join_in_order() {
    let root = RelPath::root();
    assert_eq!(root.join_str(), "");
    let a = root.push_seg("docs");
    let b = a.push_seg("sub");
    assert_eq!(b.join_str(), "docs/sub");
}
