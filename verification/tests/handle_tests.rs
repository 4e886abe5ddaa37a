use polaroid::frame::{ColumnData, Field, Frame, LogicalType};
use polaroid::handles::HandleManager;
use polaroid::provider::{
    decode_external_handle, encode_external_handle, mode_from_config, HandleStoreMode,
    MemoryStateStore,
};
use polaroid::ServiceError;

fn create_test_df() -> Frame {
    Frame::new(
        vec![
            Field { name: "a".to_string(), dtype: LogicalType::Int64, nullable: false },
            Field { name: "b".to_string(), dtype: LogicalType::Int64, nullable: false },
        ],
        vec![
            ColumnData::Int64(vec![1, 2, 3]),
            ColumnData::Int64(vec![4, 5, 6]),
        ],
    )
    .unwrap()
}

#[test]
fn test_create_and_get_handle() {
    let mut manager = HandleManager::new(3600_000);
    let df = create_test_df();

    let handle = manager.create_handle(df, 0);
    let retrieved = manager.get_dataframe(handle, 0).unwrap();

    assert_eq!(retrieved.height(), 3);
    assert_eq!(retrieved.width(), 2);
}

#[test]
fn test_handle_not_found() {
    let mut manager = HandleManager::new(3600_000);
    let result = manager.get_dataframe(999, 0);

    assert!(matches!(result, Err(ServiceError::HandleNotFound)));
}

#[test]
fn test_drop_handle() {
    let mut manager = HandleManager::new(3600_000);
    let handle = manager.create_handle(create_test_df(), 0);

    manager.drop_handle(handle).unwrap();
    let result = manager.get_dataframe(handle, 0);

    assert!(matches!(result, Err(ServiceError::HandleNotFound)));
}

#[test]
fn test_clone_handle() {
    let mut manager = HandleManager::new(3600_000);
    let handle = manager.create_handle(create_test_df(), 0);

    let cloned = manager.clone_handle(handle, 0).unwrap();
    assert_ne!(handle, cloned);

    let df1 = manager.get_dataframe(handle, 0).unwrap();
    let df2 = manager.get_dataframe(cloned, 0).unwrap();
    assert_eq!(df1.height(), df2.height());
    assert_eq!(df1.width(), df2.width());
}

#[test]
fn test_handle_expiration() {
    let mut manager = HandleManager::new(100);
    let handle = manager.create_handle(create_test_df(), 0);

    // 150 ms later the record is past its 100 ms time-to-live.
    let result = manager.get_dataframe(handle, 150);

    assert!(matches!(result, Err(ServiceError::HandleExpired)));
    // The expired record was removed: a second lookup no longer finds it.
    let again = manager.get_dataframe(handle, 150);
    assert!(matches!(again, Err(ServiceError::HandleNotFound)));
}

#[test]
fn test_heartbeat_refreshes() {
    let mut manager = HandleManager::new(1000);
    let handle = manager.create_handle(create_test_df(), 0);

    // Just before expiry, the heartbeat refreshes the access time.
    manager.heartbeat(handle, 900).unwrap();
    // 900 ms later again (90% of the ttl), the handle is still live.
    let result = manager.get_dataframe(handle, 1800);
    assert!(result.is_ok());
}

#[test]
fn test_cleanup_expired() {
    let mut manager = HandleManager::new(100);
    let h1 = manager.create_handle(create_test_df(), 0);
    let _h2 = manager.create_handle(create_test_df(), 500);

    let removed = manager.cleanup_expired(550);
    assert_eq!(removed, 1);
    assert_eq!(manager.handle_count(), 1);
    assert!(!manager.is_alive(h1, 550));
}

#[test]
fn test_handle_ids_unique() {
    let mut manager = HandleManager::new(1000);
    let h1 = manager.create_handle(create_test_df(), 0);
    let h2 = manager.create_handle(create_test_df(), 0);
    manager.drop_handle(h1).unwrap();
    let h3 = manager.create_handle(create_test_df(), 0);
    assert_ne!(h1, h2);
    assert_ne!(h1, h3);
    assert_ne!(h2, h3);
}

#[test]
fn test_external_handle_codec_roundtrip() {
    let h = encode_external_handle(&"fs".to_string(), &"k".to_string());
    assert_eq!(h, "ext:fs:k");
    let d = decode_external_handle(&h).unwrap();
    assert_eq!(d.backend, "fs");
    assert_eq!(d.key, "k");
}

#[test]
fn test_external_handle_format() {
    let mut store = MemoryStateStore::new();
    let key = store.put(create_test_df());
    assert_eq!(key.chars().count(), 36);
    assert!(!key.contains(':'));

    let handle = encode_external_handle(&"fs".to_string(), &key);
    assert!(handle.starts_with("ext:fs:"));
    let d = decode_external_handle(&handle).unwrap();
    assert_eq!(d.backend, "fs");
    assert_eq!(d.key, key);
}

#[test]
fn test_decode_rejects_other_schemes() {
    assert!(decode_external_handle(&"abc".to_string()).is_none());
    assert!(decode_external_handle(&"mem:fs:k".to_string()).is_none());
    assert!(decode_external_handle(&"ext:fs".to_string()).is_none());
}

#[test]
fn test_mode_from_config() {
    assert_eq!(mode_from_config(&"external".to_string()), HandleStoreMode::External);
    assert_eq!(mode_from_config(&"EXTERNAL".to_string()), HandleStoreMode::External);
    assert_eq!(mode_from_config(&"External".to_string()), HandleStoreMode::External);
    assert_eq!(mode_from_config(&"memory".to_string()), HandleStoreMode::InMemory);
    assert_eq!(mode_from_config(&"".to_string()), HandleStoreMode::InMemory);
}

#[test]
fn test_memory_state_store_put_get() {
    let mut store = MemoryStateStore::new();
    let key = store.put(create_test_df());
    let df = store.get(&key).unwrap();
    assert_eq!(df.height(), 3);
    assert_eq!(df.width(), 2);

    store.delete(&key);
    assert!(store.get(&key).is_none());
    assert_eq!(store.len(), 0);
}
