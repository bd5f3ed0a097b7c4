use cachers::FIFOCache;

#[test]
fn test_fifo_cache() {
    let mut cache = FIFOCache::new(2);
    cache.set(1, 1);
    cache.set(2, 2);
    assert_eq!(cache.get(1), Some(1));
    cache.set(3, 3);
    assert_eq!(cache.get(1), None);
    assert_eq!(cache.get(2), Some(2));
    assert_eq!(cache.get(3), Some(3));
}

#[test]
fn test_fifo_get_never_reorders() {
    let mut cache = FIFOCache::new(3);
    cache.set(1, 1);
    cache.set(2, 2);
    cache.set(3, 3);
    cache.get(1);
    cache.get(1);
    cache.set(4, 4);
    assert_eq!(cache.get(1), None);
    assert_eq!(cache.get(2), Some(2));
}

#[test]
fn test_fifo_overwrite_does_not_evict() {
    let mut cache = FIFOCache::new(2);
    cache.set(1, 1);
    cache.set(2, 2);
    cache.set(1, 9);
    assert_eq!(cache.stats().size, 2);
    assert_eq!(cache.get(1), Some(9));
    assert_eq!(cache.get(2), Some(2));
}

#[test]
fn test_fifo_change_capacity() {
    let mut cache = FIFOCache::new(3);
    cache.set(1, 1);
    cache.set(2, 2);
    cache.set(3, 3);
    cache.change_capacity(1);
    assert_eq!(cache.stats().size, 1);
    assert_eq!(cache.get(1), None);
    assert_eq!(cache.get(2), None);
    assert_eq!(cache.get(3), Some(3));
    cache.change_capacity(0);
    assert_eq!(cache.stats().size, 0);
}

#[test]
fn test_fifo_clear() {
    let mut cache = FIFOCache::new(2);
    cache.set(1, 1);
    cache.set(2, 2);
    cache.get(1);
    cache.clear();
    let st = cache.stats();
    assert_eq!(st.size, 0);
    assert_eq!(st.hits, 1);
    assert_eq!(cache.get(1), None);
    assert_eq!(cache.get(2), None);
}

#[test]
fn test_fifo_remove() {
    let mut cache = FIFOCache::new(2);
    cache.set(1, 1);
    cache.set(2, 2);
    assert_eq!(cache.remove(1), Some(1));
    assert_eq!(cache.remove(1), None);
    assert_eq!(cache.stats().size, 1);
}
