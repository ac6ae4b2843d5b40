use ccat::{CacheKey, ContentHashCache, FileCache};

fn key(path: &str) -> CacheKey {
    CacheKey::new(path.as_bytes().to_vec(), 1, 10)
}

#[test]
fn capacity_overflow_evicts_the_least_recently_used() {
    let mut c = FileCache::new(2);
    c.insert(key("a"), b"va".to_vec());
    c.insert(key("b"), b"vb".to_vec());
    c.insert(key("c"), b"vc".to_vec());
    // `a` was least recently used and is the one evicted
    assert_eq!(c.get(&key("a")), None);
    assert_eq!(c.get(&key("b")), Some(b"vb".to_vec()));
    assert_eq!(c.get(&key("c")), Some(b"vc".to_vec()));
    assert_eq!(c.len(), 2);
}

#[test]
fn re_access_promotes_and_changes_eviction_order() {
    let mut c = FileCache::new(2);
    c.insert(key("a"), b"va".to_vec());
    c.insert(key("b"), b"vb".to_vec());
    // touching `a` makes `b` the least recently used
    assert_eq!(c.get(&key("a")), Some(b"va".to_vec()));
    c.insert(key("c"), b"vc".to_vec());
    assert_eq!(c.get(&key("b")), None);
    assert_eq!(c.get(&key("a")), Some(b"va".to_vec()));
    assert_eq!(c.get(&key("c")), Some(b"vc".to_vec()));
}

#[test]
fn insert_on_present_key_updates_the_value() {
    let mut c = FileCache::new(2);
    c.insert(key("a"), b"old".to_vec());
    c.insert(key("a"), b"new".to_vec());
    assert_eq!(c.len(), 1);
    assert_eq!(c.get(&key("a")), Some(b"new".to_vec()));
}

#[test]
fn distinct_stat_data_means_a_distinct_key() {
    let mut c = FileCache::new(4);
    c.insert(CacheKey::new(b"p".to_vec(), 1, 10), b"v1".to_vec());
    assert_eq!(c.get(&CacheKey::new(b"p".to_vec(), 2, 10)), None);
    assert_eq!(c.get(&CacheKey::new(b"p".to_vec(), 1, 11)), None);
    assert_eq!(c.get(&CacheKey::new(b"p".to_vec(), 1, 10)), Some(b"v1".to_vec()));
}

#[test]
fn remove_clear_len_and_is_empty() {
    let mut c = FileCache::new(3);
    assert!(c.is_empty());
    c.insert(key("a"), b"va".to_vec());
    c.insert(key("b"), b"vb".to_vec());
    assert_eq!(c.len(), 2);
    assert!(!c.is_empty());
    assert_eq!(c.remove(&key("a")), Some(b"va".to_vec()));
    assert_eq!(c.remove(&key("a")), None);
    assert_eq!(c.len(), 1);
    c.clear();
    assert!(c.is_empty());
}

#[test]
fn zero_capacity_is_raised_to_one() {
    let mut c = FileCache::new(0);
    c.insert(key("a"), b"va".to_vec());
    c.insert(key("b"), b"vb".to_vec());
    assert_eq!(c.len(), 1);
    assert_eq!(c.get(&key("a")), None);
    assert_eq!(c.get(&key("b")), Some(b"vb".to_vec()));
}

#[test]
fn content_hash_cache_recomputes_on_every_access() {
    let mut c = ContentHashCache::new(2);
    let h1 = c.get_or_compute(&b"f.md".to_vec(), &b"abc".to_vec());
    assert_eq!(
        h1,
        b"ba7816bf8f01cfea414140de5dae2223b00361a396177a9cb410ff61f20015ad".to_vec()
    );
    // the digest follows the content handed in, never a stored value
    let h2 = c.get_or_compute(&b"f.md".to_vec(), &b"different".to_vec());
    assert_ne!(h2, h1);
    let h3 = c.get_or_compute(&b"f.md".to_vec(), &b"abc".to_vec());
    assert_eq!(h3, h1);
}

#[test]
fn content_hash_cache_is_stable_across_eviction() {
    let mut c = ContentHashCache::new(1);
    let h1 = c.get_or_compute(&b"one".to_vec(), &b"abc".to_vec());
    let _ = c.get_or_compute(&b"two".to_vec(), &b"xyz".to_vec());
    let h3 = c.get_or_compute(&b"one".to_vec(), &b"abc".to_vec());
    assert_eq!(h1, h3);
}
