use polaroid::cache::CacheBackend;
use polaroid::frame::{ColumnData, Field, Frame, LogicalType};
use polaroid::storage::{compression_ratio_percent, sanitize_key, HybridStorage, ParquetBackend};
use polaroid::ServiceError;

fn test_batch(value: i64) -> Frame {
    Frame::new(
        vec![Field { name: "value".to_string(), dtype: LogicalType::Int64, nullable: false }],
        vec![ColumnData::Int64(vec![value])],
    )
    .unwrap()
}

#[test]
fn test_cache_hit_miss() {
    let mut cache = CacheBackend::new(10);

    let result = cache.load(&"key1".to_string());
    assert!(result.is_none());

    cache.store(&"key1".to_string(), test_batch(42));

    let result = cache.load(&"key1".to_string());
    assert!(result.is_some());
    assert_eq!(result.unwrap().height(), 1);

    let stats = cache.stats();
    assert_eq!(stats.cache_hits, 1);
    assert_eq!(stats.cache_misses, 1);
    assert_eq!(cache.hit_rate_percent(), 50);
}

#[test]
fn test_lru_eviction() {
    let mut cache = CacheBackend::new(3);

    for i in 0..100i64 {
        cache.store(&format!("key{}", i), test_batch(i));
    }

    let keys = cache.list_keys();
    assert_eq!(keys.len(), 3);
    assert_eq!(keys, vec!["key97", "key98", "key99"]);
}

#[test]
fn test_lru_order() {
    // Fill a cache of capacity 3 with keys k0..k3 in order: k0 is evicted,
    // k1..k3 hit.
    let mut cache = CacheBackend::new(3);
    for i in 0..4i64 {
        cache.store(&format!("k{}", i), test_batch(i));
    }
    assert!(cache.load(&"k0".to_string()).is_none());
    assert!(cache.load(&"k1".to_string()).is_some());
    assert!(cache.load(&"k2".to_string()).is_some());
    assert!(cache.load(&"k3".to_string()).is_some());

    // A hit promotes: after touching k1, storing two fresh keys evicts k2.
    let mut cache = CacheBackend::new(3);
    for i in 1..4i64 {
        cache.store(&format!("k{}", i), test_batch(i));
    }
    assert!(cache.load(&"k1".to_string()).is_some());
    cache.store(&"k4".to_string(), test_batch(4));
    cache.store(&"k5".to_string(), test_batch(5));
    assert!(cache.load(&"k2".to_string()).is_none());
    assert!(cache.load(&"k1".to_string()).is_some());
}

#[test]
fn test_clear() {
    let mut cache = CacheBackend::new(10);

    cache.store(&"key1".to_string(), test_batch(1));
    cache.store(&"key2".to_string(), test_batch(2));

    assert_eq!(cache.len(), 2);

    cache.clear();

    assert_eq!(cache.len(), 0);
    assert!(cache.is_empty());
}

#[test]
fn test_key_sanitization() {
    let mut backend = ParquetBackend::new();
    backend.store(&"../../etc/passwd".to_string(), test_batch(1)).unwrap();
    backend.store(&"data/with/slashes".to_string(), test_batch(2)).unwrap();

    let keys = backend.list_keys();
    assert!(keys.contains(&"____etc_passwd".to_string()));
    assert!(keys.contains(&"data_with_slashes".to_string()));

    assert_eq!(sanitize_key(&"a b\tc".to_string()).unwrap(), "a_b_c");
    assert_eq!(sanitize_key(&"..".to_string()).unwrap(), "_");
    assert_eq!(sanitize_key(&"...".to_string()).unwrap(), "_.");
    assert!(matches!(sanitize_key(&"".to_string()), Err(ServiceError::InvalidKey)));

    // No sanitized key carries a separator or a double dot.
    for key in ["../..", "a/b\\c d", "..\\..\\x", "  . . "] {
        let sane = sanitize_key(&key.to_string()).unwrap();
        assert!(!sane.contains('/'));
        assert!(!sane.contains('\\'));
        assert!(!sane.contains(' '));
        assert!(!sane.contains(".."));
    }
}

#[test]
fn test_parquet_store_and_load() {
    let mut backend = ParquetBackend::new();

    backend.store(&"test_data".to_string(), test_batch(5)).unwrap();

    let loaded = backend.load(&"test_data".to_string()).unwrap();
    assert!(loaded.is_some());
    assert_eq!(loaded.unwrap().height(), 1);

    assert!(backend.load(&"missing".to_string()).unwrap().is_none());

    backend.delete(&"test_data".to_string()).unwrap();
    assert!(backend.load(&"test_data".to_string()).unwrap().is_none());

    let stats = backend.stats();
    assert_eq!(stats.total_keys, 0);
}

#[test]
fn test_compression_ratio_formula() {
    // No files: the ratio defaults to 100 percent (uncompressed).
    assert_eq!(compression_ratio_percent(&vec![]), 100);
    // 800 uncompressed bytes over 200 compressed: a ratio of 4, i.e. 400.
    assert_eq!(compression_ratio_percent(&vec![(800, 200)]), 400);
    // Only the first ten files are sampled.
    let mut meta = vec![(100u64, 100u64); 10];
    meta.push((1_000_000, 1));
    assert_eq!(compression_ratio_percent(&meta), 100);
}

#[test]
fn test_hybrid_storage_lifecycle() {
    let mut storage = HybridStorage::new(10);

    let batch = test_batch(7);

    storage.store(&"test_key".to_string(), batch).unwrap();

    // The first load answers from the cache.
    let loaded = storage.load(&"test_key".to_string()).unwrap();
    assert!(loaded.is_some());
    assert_eq!(loaded.unwrap().height(), 1);

    let stats = storage.stats();
    assert_eq!(stats.total_keys, 1);
    assert_eq!(stats.cache_hits, 1);

    storage.delete(&"test_key".to_string()).unwrap();
    let deleted = storage.load(&"test_key".to_string()).unwrap();
    assert!(deleted.is_none());
}

#[test]
fn test_hybrid_read_through_warms_cache() {
    let mut storage = HybridStorage::new(4);
    storage.store(&"k".to_string(), test_batch(1)).unwrap();
    // The first load hits the cache.
    assert!(storage.load(&"k".to_string()).unwrap().is_some());
    assert_eq!(storage.stats().cache_hits, 1);

    // Evicting "k" from the cache forces the next load through the cold
    // tier, which warms the cache again.
    storage.cache.delete(&"k".to_string());
    assert!(storage.load(&"k".to_string()).unwrap().is_some());
    let stats = storage.stats();
    assert_eq!(stats.cache_misses, 1);
    assert!(storage.load(&"k".to_string()).unwrap().is_some());
    assert_eq!(storage.stats().cache_hits, 2);
}

#[test]
fn test_hybrid_partial_store_and_query() {
    let mut storage = HybridStorage::new(4);
    let r = storage.store(&"".to_string(), test_batch(1));
    assert!(matches!(r, Err(ServiceError::PartialStore(polaroid::Tier::Cache))));
    assert!(matches!(
        storage.query(&"SELECT 1".to_string()),
        Err(ServiceError::Unsupported)
    ));
}
