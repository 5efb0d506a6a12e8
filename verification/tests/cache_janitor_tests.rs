use fontsub::cache::{cache_path, CacheStore};
use fontsub::janitor::{cleanup_expired_cache, is_file_expired, CacheEntry};

#[test]
fn store_round_trip_returns_identical_bytes() {
    let mut store = CacheStore::new();
    let key = cache_path("data/static", "src-han", "40339.woff2");
    assert_eq!(key, "data/static/src-han/40339.woff2");
    let bytes: Vec<u8> = vec![1, 2, 3, 4, 5];
    store.put(key.clone(), bytes.clone());
    let got = store.get(&key).expect("artifact must be retrievable after put");
    assert_eq!(got, &bytes);
}

#[test]
fn store_overwrite_is_last_writer_wins() {
    let mut store = CacheStore::new();
    let key = String::from("data/static/a/1.woff2");
    store.put(key.clone(), vec![1]);
    store.put(key.clone(), vec![2, 3]);
    assert_eq!(store.get(&key).unwrap(), &vec![2, 3]);
    assert!(store.get(&String::from("data/static/a/2.woff2")).is_none());
}

#[test]
fn expiry_follows_the_retention_window() {
    assert!(!is_file_expired(Some(0), 7));
    assert!(!is_file_expired(Some(7 * 86400), 7));
    assert!(is_file_expired(Some(7 * 86400 + 1), 7));
    // an unreadable modification time is reclaimed, not leaked
    assert!(is_file_expired(None, 7));
}

fn entry(name: &str, age_secs: Option<u64>) -> CacheEntry {
    CacheEntry { name: String::from(name), age_secs }
}

#[test]
fn janitor_sweep_is_idempotent() {
    let entries = vec![
        entry("old.woff2", Some(8 * 86400)),
        entry("fresh.woff2", Some(3600)),
        entry("unreadable.woff2", None),
        entry("older.woff2", Some(30 * 86400)),
    ];
    let (removed, count) = cleanup_expired_cache(&entries, 7);
    assert_eq!(count, 3);
    assert_eq!(removed, vec!["old.woff2", "unreadable.woff2", "older.woff2"]);

    // second sweep over what the first kept, with nothing new: removes nothing
    let kept: Vec<CacheEntry> =
        entries.into_iter().filter(|e| !removed.contains(&e.name)).collect();
    let (removed_again, count_again) = cleanup_expired_cache(&kept, 7);
    assert_eq!(count_again, 0);
    assert!(removed_again.is_empty());
}
