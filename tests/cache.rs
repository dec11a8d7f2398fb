use synapse::FileCache;

fn s(x: &str) -> String {
    String::from(x)
}

#[test]
fn hit_and_miss() {
    let mut c: FileCache<u32> = FileCache::new(2);
    assert_eq!(c.insert(s("a"), 1), None);
    assert!(c.contains(&s("a")));
    assert!(!c.contains(&s("b")));
    assert_eq!(c.take(&s("a")), Some(1));
    assert_eq!(c.take(&s("a")), None);
    assert_eq!(c.len(), 0);
}

#[test]
fn full_cache_evicts_least_recently_used() {
    let mut c: FileCache<u32> = FileCache::new(2);
    assert_eq!(c.insert(s("a"), 1), None);
    assert_eq!(c.insert(s("b"), 2), None);
    let h = c.take(&s("a")).unwrap();
    assert_eq!(c.insert(s("a"), h), None);
    assert_eq!(c.insert(s("c"), 3), Some((s("b"), 2)));
    assert_eq!(c.len(), 2);
    assert!(c.contains(&s("a")));
    assert!(c.contains(&s("c")));
}

#[test]
fn insert_replaces_same_path() {
    let mut c: FileCache<u32> = FileCache::new(1);
    assert_eq!(c.insert(s("a"), 1), None);
    assert_eq!(c.insert(s("a"), 5), Some((s("a"), 1)));
    assert_eq!(c.len(), 1);
    assert_eq!(c.take(&s("a")), Some(5));
}

#[test]
fn remove_file_drops_entry() {
    let mut c: FileCache<u32> = FileCache::new(3);
    c.insert(s("a"), 1);
    c.insert(s("b"), 2);
    c.remove_file(&s("a"));
    c.remove_file(&s("zzz"));
    assert!(!c.contains(&s("a")));
    assert!(c.contains(&s("b")));
    assert_eq!(c.len(), 1);
}

#[test]
fn make_room_evicts_only_when_full_and_absent() {
    let mut c: FileCache<u32> = FileCache::new(2);
    c.insert(s("a"), 1);
    assert_eq!(c.make_room(&s("b")), None);
    c.insert(s("b"), 2);
    assert_eq!(c.make_room(&s("a")), None);
    assert_eq!(c.len(), 2);
    assert_eq!(c.make_room(&s("c")), Some((s("a"), 1)));
    assert_eq!(c.len(), 1);
    assert_eq!(c.insert(s("c"), 3), None);
    assert!(c.contains(&s("b")) && c.contains(&s("c")));
}
