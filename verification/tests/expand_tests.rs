use lanshare::cache::SelectionCache;
use lanshare::expand::{merge_sorted_unique, Expander};

#[test]
fn one_dir_and_one_file_yield_k_plus_one_entries() {
    let run = || {
        let dirs = vec!["docs".to_string()];
        let mut e = Expander::new(&dirs);
        let d = e.pop_pending().unwrap();
        assert_eq!(d.join_str(), "docs");
        e.record_child(&d, "b.txt", false);
        e.record_child(&d, "a.txt", false);
        e.record_child(&d, "sub", true);
        let sub = e.pop_pending().unwrap();
        assert_eq!(sub.join_str(), "docs/sub");
        e.record_child(&sub, "c.txt", false);
        assert!(e.pop_pending().is_none());
        let explicit = vec!["z.txt".to_string()];
        e.finish(&explicit)
    };
    let files = run();
    let expected: Vec<String> = vec![
        "docs/a.txt".to_string(),
        "docs/b.txt".to_string(),
        "docs/sub/c.txt".to_string(),
        "z.txt".to_string(),
    ];
    assert_eq!(files, expected);

    // Re-registering the same inputs yields a different id but an
    // identical file set.
    let again = run();
    assert_eq!(again, files);
    let mut cache = SelectionCache::new(10);
    let id1 = cache.insert(files);
    let id2 = cache.insert(again);
    assert_ne!(id1, id2);
    let l1 = cache.lookup(id1);
    let l2 = cache.lookup(id2);
    assert_eq!(l1, l2);
}

#[test]
fn duplicates_are_merged_away() {
    let dirs = vec!["d".to_string()];
    let mut e = Expander::new(&dirs);
    let d = e.pop_pending().unwrap();
    e.record_child(&d, "a.txt", false);
    let explicit = vec!["d/a.txt".to_string(), "d/a.txt".to_string()];
    let files = e.finish(&explicit);
    assert_eq!(files, vec!["d/a.txt".to_string()]);
}

#[test]
fn unlistable_directory_is_skipped() {
    let dirs = vec!["gone".to_string(), "still-here".to_string()];
    let mut e = Expander::new(&dirs);
    let d = e.pop_pending().unwrap();
    assert_eq!(d.join_str(), "still-here");
    // Listing "still-here" succeeds with one file; listing "gone"
    // fails, so its children are simply never recorded.
    e.record_child(&d, "f.txt", false);
    let _gone = e.pop_pending().unwrap();
    assert!(e.pop_pending().is_none());
    let files = e.finish(&Vec::new());
    assert_eq!(files, vec!["still-here/f.txt".to_string()]);
}

#[test]
fn hostile_child_names_are_ignored() {
    let dirs = vec!["d".to_string()];
    let mut e = Expander::new(&dirs);
    let d = e.pop_pending().unwrap();
    e.record_child(&d, "..", false);
    e.record_child(&d, "a/b", false);
    e.record_child(&d, "", false);
    e.record_child(&d, "ok.txt", false);
    let files = e.finish(&Vec::new());
    assert_eq!(files, vec!["d/ok.txt".to_string()]);
}

#[test]
fn merge_sorts_bytewise_and_dedups() {
    let a = vec!["b".to_string(), "a".to_string(), "b".to_string()];
    let b = vec!["a".to_string(), "c".to_string()];
    let r = merge_sorted_unique(&a, &b);
    assert_eq!(r, vec!["a".to_string(), "b".to_string(), "c".to_string()]);
}
