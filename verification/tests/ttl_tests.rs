use cachers::TTLCache;

#[test]
fn test_ttl_cache() {
    let mut cache = TTLCache::new(1000, 100, 10, 2);
    cache.set(1, 1, 0);
    cache.set(2, 2, 0);
    assert_eq!(cache.get(1, 0), Some(1));
    assert_eq!(cache.get(1, 2000), None);
    assert_eq!(cache.get(2, 2000), None);
}

#[test]
fn test_ttl_cache_change_capacity() {
    let mut cache = TTLCache::new(1000, 100, 10, 2);
    cache.set(1, 1, 0);
    cache.set(2, 2, 0);
    cache.change_capacity(1);
    assert_eq!(cache.get(1, 0), None);
    assert_eq!(cache.get(2, 0), Some(2));
}

#[test]
fn test_ttl_cache_clear() {
    let mut cache = TTLCache::new(1000, 100, 10, 2);
    cache.set(1, 1, 0);
    cache.set(2, 2, 0);
    cache.clear();
    assert_eq!(cache.get(1, 0), None);
    assert_eq!(cache.get(2, 0), None);
}

#[test]
fn test_ttl_lazy_expiry() {
    let mut cache = TTLCache::new(1, 100, 10, 2);
    cache.set(1, 1, 0);
    assert_eq!(cache.stats().size, 1);
    assert_eq!(cache.get(1, 1), None);
    assert_eq!(cache.stats().size, 0);
    let st = cache.stats();
    assert_eq!(st.misses, 1);
    assert_eq!(st.hits, 0);
}

#[test]
fn test_ttl_sliding_expiry() {
    let mut cache = TTLCache::new(10, 100, 10, 2);
    cache.set(1, 1, 0);
    let mut t: u64 = 5;
    while t <= 500 {
        assert_eq!(cache.get(1, t), Some(1));
        t += 5;
    }
}

#[test]
fn test_ttl_sweep_removes_expired() {
    let mut cache = TTLCache::new(10, 100, 10, 4);
    cache.set(1, 1, 0);
    cache.set(2, 2, 0);
    cache.sweep(100);
    assert_eq!(cache.stats().size, 0);
    assert_eq!(cache.get(1, 100), None);
}

#[test]
fn test_ttl_sweep_stops_at_live_head() {
    let mut cache = TTLCache::new(10, 100, 10, 4);
    cache.set(1, 1, 0);
    cache.set(2, 2, 20);
    cache.sweep(25);
    assert_eq!(cache.stats().size, 1);
    assert_eq!(cache.get(2, 25), Some(2));
    assert_eq!(cache.get(1, 25), None);
}

#[test]
fn test_ttl_sweep_boundary_inclusive() {
    let mut cache = TTLCache::new(10, 100, 10, 2);
    cache.set(1, 1, 0);
    cache.sweep(9);
    assert_eq!(cache.stats().size, 1);
    cache.sweep(10);
    assert_eq!(cache.stats().size, 0);
    assert_eq!(cache.get(1, 10), None);
}

#[test]
fn test_ttl_refresh_changes_eviction_order() {
    let mut cache = TTLCache::new(100, 100, 10, 2);
    cache.set(1, 1, 0);
    cache.set(2, 2, 0);
    assert_eq!(cache.get(1, 1), Some(1));
    cache.set(3, 3, 2);
    assert_eq!(cache.get(2, 2), None);
    assert_eq!(cache.get(1, 2), Some(1));
    assert_eq!(cache.get(3, 2), Some(3));
}

#[test]
fn test_ttl_zero_capacity_keeps_one_entry() {
    let mut cache = TTLCache::new(100, 100, 10, 0);
    cache.set(1, 1, 0);
    assert_eq!(cache.stats().size, 1);
    cache.set(2, 2, 0);
    assert_eq!(cache.stats().size, 1);
    assert_eq!(cache.get(1, 0), None);
    assert_eq!(cache.get(2, 0), Some(2));
}

#[test]
fn test_ttl_pre_check_evicts_before_insert() {
    let mut cache = TTLCache::new(100, 100, 10, 2);
    cache.set(1, 1, 0);
    cache.set(2, 2, 0);
    cache.set(3, 3, 0);
    assert_eq!(cache.stats().size, 2);
    assert_eq!(cache.get(1, 0), None);
    assert_eq!(cache.get(2, 0), Some(2));
    assert_eq!(cache.get(3, 0), Some(3));
}

#[test]
fn test_ttl_remove_and_clear_counters() {
    let mut cache = TTLCache::new(100, 100, 10, 2);
    cache.set(1, 1, 0);
    cache.get(1, 0);
    cache.get(9, 0);
    assert_eq!(cache.remove(1), Some(1));
    assert_eq!(cache.remove(1), None);
    assert_eq!(cache.stats().size, 0);
    cache.set(2, 2, 0);
    cache.clear();
    let st = cache.stats();
    assert_eq!(st.size, 0);
    assert_eq!(st.hits, 1);
    assert_eq!(st.misses, 1);
}

#[test]
fn test_ttl_set_returns_previous() {
    let mut cache = TTLCache::new(100, 100, 10, 2);
    assert_eq!(cache.set(1, 1, 0), None);
    assert_eq!(cache.set(1, 5, 0), Some(1));
    assert_eq!(cache.get(1, 0), Some(5));
    assert_eq!(cache.set(2, 2, 0), None);
}

#[test]
fn test_ttl_delay_formula() {
    let cache = TTLCache::new(1000, 100, 50, 2);
    assert_eq!(cache.delay_for(0), 100);
    assert_eq!(cache.delay_for(1), 150);
    assert_eq!(cache.delay_for(7), 107);
    assert_eq!(cache.delay_for(99), 100);
    let big = TTLCache::new(1000, u64::MAX, u64::MAX, 2);
    assert_eq!(big.delay_for(1), u64::MAX);
}

#[test]
fn test_ttl_next_sweep_delay_within_bounds() {
    let quiet = TTLCache::new(1000, 100, 0, 2);
    for _ in 0..20 {
        assert_eq!(quiet.next_sweep_delay(), 100);
    }
    let jittery = TTLCache::new(1000, 100, 99, 2);
    for _ in 0..100 {
        let d: u64 = jittery.next_sweep_delay();
        assert!(d >= 101);
        assert!(d <= 199);
    }
}
