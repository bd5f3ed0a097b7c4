use cachers::LRUCache;

#[test]
fn test_lru_cache() {
    let mut cache = LRUCache::new(2);
    cache.set(1, 1);
    cache.set(2, 2);
    assert_eq!(cache.get(1), Some(1));
    cache.set(3, 3);
    assert_eq!(cache.get(2), None);
    cache.set(4, 4);
    assert_eq!(cache.get(1), None);
    assert_eq!(cache.get(3), Some(3));
    assert_eq!(cache.get(4), Some(4));
}

#[test]
fn test_lru_cache_change_capacity() {
    let mut cache = LRUCache::new(2);
    cache.set(1, 1);
    cache.set(2, 2);
    cache.change_capacity(1);
    assert_eq!(cache.get(1), None);
    assert_eq!(cache.get(2), Some(2));
}

#[test]
fn test_lru_cache_clear() {
    let mut cache = LRUCache::new(2);
    cache.set(1, 1);
    cache.set(2, 2);
    cache.clear();
    assert_eq!(cache.get(1), None);
    assert_eq!(cache.get(2), None);
}

#[test]
fn test_lru_stats() {
    let mut cache = LRUCache::new(2);
    cache.set(1, 1);
    cache.set(2, 2);
    cache.set(3, 3);
    assert_eq!(cache.stats().hits, 0);
    cache.get(1);
    cache.get(2);
    assert_eq!(cache.stats().hits, 1);
    assert_eq!(cache.stats().misses, 1);
    cache.get(3);
    assert_eq!(cache.stats().hits, 2);
    assert_eq!(cache.stats().misses, 1);

    cache.set(4, 4);
    assert_eq!(cache.stats().size, 2);
    cache.get(2);
    assert_eq!(cache.stats().misses, 2);
    cache.get(4);
    assert_eq!(cache.stats().hits, 3);
}

#[test]
fn test_lru_hit_miss_accounting() {
    let mut cache = LRUCache::new(2);
    cache.set(1, 1);
    cache.set(2, 2);
    cache.set(3, 3);
    assert_eq!(cache.get(1), None);
    assert_eq!(cache.get(2), Some(2));
    assert_eq!(cache.get(3), Some(3));
    let st = cache.stats();
    assert_eq!(st.hits, 2);
    assert_eq!(st.misses, 1);
    assert_eq!(st.size, 2);
    assert_eq!(st.capacity, 2);
}

#[test]
fn test_lru_set_returns_previous() {
    let mut cache = LRUCache::new(2);
    assert_eq!(cache.set(1, 1), None);
    assert_eq!(cache.set(1, 5), Some(1));
    assert_eq!(cache.get(1), Some(5));
}

#[test]
fn test_lru_overwrite_refreshes_position() {
    let mut cache = LRUCache::new(2);
    cache.set(1, 1);
    cache.set(2, 2);
    cache.set(1, 9);
    cache.set(3, 3);
    assert_eq!(cache.get(2), None);
    assert_eq!(cache.get(1), Some(9));
    assert_eq!(cache.get(3), Some(3));
}

#[test]
fn test_lru_remove() {
    let mut cache = LRUCache::new(2);
    cache.set(1, 1);
    assert_eq!(cache.remove(1), Some(1));
    assert_eq!(cache.remove(1), None);
    assert_eq!(cache.get(1), None);
    assert_eq!(cache.stats().size, 0);
}

#[test]
fn test_lru_change_capacity_to_zero() {
    let mut cache = LRUCache::new(2);
    cache.set(1, 1);
    cache.set(2, 2);
    cache.change_capacity(0);
    assert_eq!(cache.stats().size, 0);
    cache.set(3, 3);
    assert_eq!(cache.stats().size, 0);
    assert_eq!(cache.get(3), None);
}

#[test]
fn test_lru_clear_keeps_counters() {
    let mut cache = LRUCache::new(2);
    cache.set(1, 1);
    cache.get(1);
    cache.get(9);
    cache.clear();
    let st = cache.stats();
    assert_eq!(st.size, 0);
    assert_eq!(st.hits, 1);
    assert_eq!(st.misses, 1);
}
