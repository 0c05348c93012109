use fips_engine::cache::{CacheKey, CoordinateCache, Invalidation};

fn key(value: u8) -> CacheKey {
    [value; 16]
}

#[test]
fn root_and_local_path_invalidations_have_distinct_scope() {
    let mut cache = CoordinateCache::new(8, 1_000);
    cache.insert(key(1), key(9), vec![1, 2, 3], 0);
    cache.insert(key(2), key(9), vec![4, 5], 0);
    cache.insert(key(3), key(8), vec![1, 6], 0);
    assert_eq!(cache.invalidate(&Invalidation::PathNode(1)), 2);
    assert_eq!(cache.len(), 1);
    cache.insert(key(1), key(9), vec![1, 2, 3], 1);
    assert_eq!(cache.invalidate(&Invalidation::Root(key(9))), 2);
    assert!(cache.is_empty());
    assert_eq!(cache.counters.invalidations, 4);
}

#[test]
fn touch_expiry_and_capacity_thrash_are_visible() {
    let mut cache = CoordinateCache::new(2, 10);
    cache.insert(key(1), key(9), vec![1], 0);
    cache.insert(key(2), key(9), vec![2, 3], 0);
    assert!(cache.get(&key(1), 5).is_some());
    cache.insert(key(3), key(9), vec![3], 6);
    assert!(cache.get(&key(2), 6).is_none());
    assert_eq!(cache.counters.evictions, 1);
    assert!(cache.get(&key(1), 14).is_some());
    assert!(cache.get(&key(1), 25).is_none());
    assert_eq!(cache.counters.expirations, 1);
    assert_eq!(cache.counters.hits, 2);
    assert_eq!(cache.counters.misses, 2);
    assert!(cache.counters.peak_bytes > 0);
}

#[test]
fn coordinate_bytes_and_peaks_follow_the_codec_formula() {
    let mut cache = CoordinateCache::new(4, 100);
    cache.insert(key(1), key(9), vec![1, 2, 3], 0);
    cache.insert(key(2), key(9), vec![4], 0);
    assert_eq!(cache.memory_bytes(), (2 + 16 * 3) + (2 + 16));
    assert_eq!(cache.counters.warmup_bytes, 68);
    assert_eq!(cache.counters.insertions, 2);
    assert_eq!(cache.counters.peak_entries, 2);
    assert_eq!(cache.counters.peak_bytes, 68);
    assert_eq!(cache.invalidate(&Invalidation::Node(key(1))), 1);
    assert_eq!(cache.memory_bytes(), 18);
    assert_eq!(cache.counters.peak_bytes, 68);
}

#[test]
fn refresh_keeps_one_entry_per_destination() {
    let mut cache = CoordinateCache::new(2, 10);
    cache.insert(key(1), key(9), vec![1], 0);
    cache.insert(key(1), key(8), vec![2, 3], 1);
    assert_eq!(cache.len(), 1);
    let entry = cache.get(&key(1), 2).unwrap();
    assert_eq!(entry.root, key(8));
    assert_eq!(entry.path, vec![2, 3]);
    assert_eq!(entry.expires_at_ns, 12);
    assert_eq!(cache.counters.evictions, 0);
}

#[test]
fn sweeps_count_fresh_and_expired_entries() {
    let mut cache = CoordinateCache::new(4, 10);
    cache.insert(key(1), key(9), vec![1], 0);
    cache.insert(key(2), key(9), vec![2], 5);
    assert_eq!(cache.fresh_entries(9), 2);
    assert_eq!(cache.fresh_entries(10), 1);
    assert_eq!(cache.expire(10), 1);
    assert_eq!(cache.len(), 1);
    assert_eq!(cache.counters.expirations, 1);
    assert_eq!(cache.expire(15), 1);
    assert!(cache.is_empty());
}

#[test]
fn zero_capacity_cache_admits_nothing() {
    let mut cache = CoordinateCache::new(0, 10);
    cache.insert(key(1), key(9), vec![1], 0);
    assert!(cache.is_empty());
    assert_eq!(cache.counters.insertions, 0);
    assert!(cache.get(&key(1), 0).is_none());
    assert_eq!(cache.counters.misses, 1);
}

#[test]
fn least_recently_touched_entry_is_evicted() {
    let mut cache = CoordinateCache::new(2, 100);
    cache.insert(key(5), key(9), vec![1], 0);
    cache.insert(key(4), key(9), vec![1], 0);
    cache.insert(key(6), key(9), vec![1], 0);
    assert!(cache.get(&key(5), 1).is_none());
    assert!(cache.get(&key(4), 1).is_some());
    assert!(cache.get(&key(6), 1).is_some());
}
