use mqtt_topic_engine::CacheStrategy;

#[test]
fn test_new_with_capacity_no_lru() {
    let cache = CacheStrategy::new(100);
    assert_eq!(cache, CacheStrategy::NoCache);
    assert_eq!(cache.capacity(), None);
}

#[test]
fn test_new_with_zero_capacity() {
    let cache = CacheStrategy::new(0);
    assert_eq!(cache, CacheStrategy::NoCache);
    assert_eq!(cache.capacity(), None);
}

#[test]
fn test_default() {
    let cache = CacheStrategy::default();
    assert_eq!(cache, CacheStrategy::NoCache);
}

#[test]
fn test_capacity_no_cache() {
    let no_cache = CacheStrategy::NoCache;
    assert_eq!(no_cache.capacity(), None);
}

#[test]
fn test_clone_and_copy() {
    let cache = CacheStrategy::new(100);
    let cloned = cache;
    assert_eq!(cache, cloned);
}
