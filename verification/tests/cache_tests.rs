use lanshare::cache::{SelectionCache, DEFAULT_CAPACITY};

#[test]
fn first_of_101_insertions_is_evicted() {
    let mut c = SelectionCache::new(DEFAULT_CAPACITY);
    let mut ids: Vec<u64> = Vec::new();
    for i in 0..101u64 {
        let files = vec![format!("file-{}.bin", i)];
        ids.push(c.insert(files));
    }
    assert!(c.lookup(ids[0]).is_none());
    for k in 1..101usize {
        let got = c.lookup(ids[k]);
        assert_eq!(got, Some(vec![format!("file-{}.bin", k)]));
    }
}

#[test]
fn ids_are_fresh_and_distinct() {
    let mut c = SelectionCache::new(4);
    let a = c.insert(vec!["x".to_string()]);
    let b = c.insert(vec!["x".to_string()]);
    assert_ne!(a, b);
}

#[test]
fn lookup_refreshes_recency() {
    let mut c = SelectionCache::new(2);
    let a = c.insert(vec!["a".to_string()]);
    let b = c.insert(vec!["b".to_string()]);
    assert!(c.lookup(a).is_some());
    let _d = c.insert(vec!["d".to_string()]);
    assert!(c.lookup(b).is_none());
    assert!(c.lookup(a).is_some());
}

#[test]
fn lookup_returns_stored_copy() {
    let mut c = SelectionCache::new(3);
    let files = vec!["p/q.txt".to_string(), "r.txt".to_string()];
    let id = c.insert(files.clone());
    assert_eq!(c.lookup(id), Some(files));
}

#[test]
fn unknown_id_is_not_found() {
    let mut c = SelectionCache::new(3);
    let id = c.insert(vec!["a".to_string()]);
    assert!(c.lookup(id + 7).is_none());
    assert_eq!(c.len(), 1);
}
