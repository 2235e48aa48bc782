use ranked_cache::cache::LRUCache;
use ranked_cache::CoreError;

#[test]
fn zero_capacity_is_invalid_config() {
    let r: Result<LRUCache<i32>, CoreError> = LRUCache::new(0);
    assert!(matches!(r, Err(CoreError::InvalidConfig)));
}

#[test]
fn capacity_one_is_accepted() {
    let r: Result<LRUCache<i32>, CoreError> = LRUCache::new(1);
    assert!(r.is_ok());
}

#[test]
fn capacity_two_evicts_least_recently_used() {
    // put "a", put "b", put "c" on a capacity-2 cache: "a" is evicted.
    let mut cache: LRUCache<i32> = LRUCache::new(2).unwrap();
    cache.put("a".to_string(), 1);
    cache.put("b".to_string(), 2);
    cache.put("c".to_string(), 3);
    assert_eq!(cache.get("a"), None);
    assert_eq!(cache.get("b"), Some(&2));
    assert_eq!(cache.get("c"), Some(&3));
}

#[test]
fn get_refreshes_recency() {
    let mut cache: LRUCache<i32> = LRUCache::new(2).unwrap();
    cache.put("a".to_string(), 1);
    cache.put("b".to_string(), 2);
    // touch "a": now "b" is the least recently used
    assert_eq!(cache.get("a"), Some(&1));
    cache.put("c".to_string(), 3);
    assert_eq!(cache.get("b"), None);
    assert_eq!(cache.get("a"), Some(&1));
    assert_eq!(cache.get("c"), Some(&3));
}

#[test]
fn get_on_absent_key_changes_nothing() {
    let mut cache: LRUCache<i32> = LRUCache::new(2).unwrap();
    cache.put("a".to_string(), 1);
    cache.put("b".to_string(), 2);
    assert_eq!(cache.get("missing"), None);
    // the present keys are untouched, in particular nothing was evicted
    cache.put("c".to_string(), 3);
    // "a" was the least recently used before the miss, so it went
    assert_eq!(cache.get("a"), None);
    assert_eq!(cache.get("b"), Some(&2));
    assert_eq!(cache.get("c"), Some(&3));
}

#[test]
fn get_keeps_the_key_set() {
    let mut cache: LRUCache<i32> = LRUCache::new(3).unwrap();
    cache.put("a".to_string(), 1);
    cache.put("b".to_string(), 2);
    cache.put("c".to_string(), 3);
    assert_eq!(cache.get("a"), Some(&1));
    assert_eq!(cache.get("a"), Some(&1));
    assert_eq!(cache.get("b"), Some(&2));
    assert_eq!(cache.get("c"), Some(&3));
}

#[test]
fn reput_updates_value_without_eviction() {
    let mut cache: LRUCache<i32> = LRUCache::new(2).unwrap();
    cache.put("a".to_string(), 1);
    cache.put("b".to_string(), 2);
    // re-put of a present key must not evict anything
    cache.put("a".to_string(), 9);
    assert_eq!(cache.get("b"), Some(&2));
    assert_eq!(cache.get("a"), Some(&9));
}

#[test]
fn reput_moves_key_to_most_recent() {
    let mut cache: LRUCache<i32> = LRUCache::new(2).unwrap();
    cache.put("a".to_string(), 1);
    cache.put("b".to_string(), 2);
    // refresh "a" by re-putting it; "b" becomes the eviction candidate
    cache.put("a".to_string(), 10);
    cache.put("c".to_string(), 3);
    assert_eq!(cache.get("b"), None);
    assert_eq!(cache.get("a"), Some(&10));
    assert_eq!(cache.get("c"), Some(&3));
}

#[test]
fn delete_removes_only_its_key() {
    let mut cache: LRUCache<i32> = LRUCache::new(3).unwrap();
    cache.put("a".to_string(), 1);
    cache.put("b".to_string(), 2);
    cache.put("c".to_string(), 3);
    assert_eq!(cache.delete("b"), Some(2));
    assert_eq!(cache.get("b"), None);
    assert_eq!(cache.get("a"), Some(&1));
    assert_eq!(cache.get("c"), Some(&3));
    assert_eq!(cache.delete("missing"), None);
}

#[test]
fn clear_empties_the_cache() {
    let mut cache: LRUCache<i32> = LRUCache::new(2).unwrap();
    cache.put("a".to_string(), 1);
    cache.put("b".to_string(), 2);
    cache.clear();
    assert_eq!(cache.get("a"), None);
    assert_eq!(cache.get("b"), None);
    // the capacity survives: two fresh entries fit again
    cache.put("x".to_string(), 7);
    cache.put("y".to_string(), 8);
    assert_eq!(cache.get("x"), Some(&7));
    assert_eq!(cache.get("y"), Some(&8));
}

#[test]
fn cache_holds_generic_values() {
    let mut cache: LRUCache<Vec<u8>> = LRUCache::new(2).unwrap();
    cache.put("k".to_string(), vec![1, 2, 3]);
    assert_eq!(cache.get("k"), Some(&vec![1, 2, 3]));
}
