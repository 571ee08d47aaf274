use swap_cache::SwapCache;

#[test]
fn test_simple() {
    let mut cache: SwapCache<char, usize> = SwapCache::new(10).unwrap();

    let pairs: Vec<(usize, char)> = "abcdefg".chars().enumerate().collect();

    for (value, key) in pairs.clone() {
        cache.put(key, value);
    }

    for (value, key) in pairs.clone() {
        assert_eq!(cache.get(&key), Some(&value))
    }
}

#[test]
fn test_expire() {
    let mut cache: SwapCache<char, usize> = SwapCache::new(10).unwrap();

    let pairs: Vec<(usize, char)> = "abcdefghijklmnopqrstuvwxyz".chars().enumerate().collect();

    for (value, key) in pairs.clone() {
        cache.put(key, value);
    }

    for (value, key) in &pairs[16..26] {
        assert_eq!(cache.get(key), Some(value));
    }

    for (_, key) in &pairs[0..16] {
        assert_eq!(cache.get(key), None);
    }
}

#[test]
fn test_update() {
    let mut cache: SwapCache<char, usize> = SwapCache::new(20).unwrap();

    let pairs: Vec<(usize, char)> = "abcdefghijklmnopqrstuvwxyz".chars().enumerate().collect();

    let (update_value, update_key) = pairs[0];
    let (_, displaced_key) = pairs[6];

    for (value, key) in pairs.clone() {
        cache.put(key, value);
        cache.get(&update_key);
    }
    assert_eq!(cache.get(&update_key), Some(&update_value));
    assert_eq!(cache.get(&displaced_key), None);
}

#[test]
fn test_zero_capacity_rejected() {
    assert!(SwapCache::<char, usize>::new(0).is_none());
    assert!(SwapCache::<char, usize>::new(1).is_some());
}

#[test]
fn test_capacity_one() {
    let mut cache: SwapCache<u64, u64> = SwapCache::new(1).unwrap();
    cache.put(1, 10);
    assert_eq!(cache.get(&1), Some(&10));
    cache.put(2, 20);
    assert_eq!(cache.get(&1), None);
    assert_eq!(cache.get(&2), Some(&20));
}

#[test]
fn test_miss_leaves_state_alone() {
    let mut cache: SwapCache<u64, u64> = SwapCache::new(3).unwrap();
    cache.put(1, 10);
    cache.put(2, 20);
    assert_eq!(cache.get(&99), None);
    assert_eq!(cache.get(&99), None);
    assert_eq!(cache.get(&1), Some(&10));
    assert_eq!(cache.get(&2), Some(&20));
}

#[test]
fn test_put_existing_key_is_noop() {
    let mut cache: SwapCache<char, usize> = SwapCache::new(4).unwrap();
    cache.put('a', 1);
    cache.put('a', 2);
    assert_eq!(cache.get(&'a'), Some(&1));
}

#[test]
fn test_exactly_earliest_key_evicted() {
    // Capacity 3: the fourth distinct put evicts exactly the first key.
    let mut cache: SwapCache<u64, u64> = SwapCache::new(3).unwrap();
    for k in 0..4u64 {
        cache.put(k, k * 100);
    }
    assert_eq!(cache.get(&0), None);
    assert_eq!(cache.get(&1), Some(&100));
    assert_eq!(cache.get(&2), Some(&200));
    assert_eq!(cache.get(&3), Some(&300));
}

#[test]
fn test_repeated_hits_keep_values() {
    // Many repositions over a wrapped ring must never lose or corrupt an
    // entry that stays resident.
    let mut cache: SwapCache<u64, u64> = SwapCache::new(8).unwrap();
    for k in 0..8u64 {
        cache.put(k, 1000 + k);
    }
    for round in 0..50u64 {
        let k = round % 8;
        assert_eq!(cache.get(&k), Some(&(1000 + k)));
    }
}

#[test]
fn test_hot_key_survives_churn() {
    // A key refreshed after every insert stays resident while idle keys
    // inserted around the same time are evicted.
    let mut cache: SwapCache<u64, u64> = SwapCache::new(10).unwrap();
    cache.put(1000, 42);
    for k in 0..30u64 {
        cache.put(k, k);
        assert_eq!(cache.get(&1000), Some(&42));
    }
    assert_eq!(cache.get(&1000), Some(&42));
    assert_eq!(cache.get(&0), None);
}
