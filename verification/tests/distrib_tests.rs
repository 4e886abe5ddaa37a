use polaroid::distrib::{
    CacheConfig, CacheKey, Coordinator, CoordinatorConfig, ExecutorConfig, QueryPlanner,
};
use polaroid::duckdb_backend::DuckDBBackend;
use polaroid::frame::{ColumnData, Field, Frame, LogicalType};
use polaroid::pool::{Connection, PoolConfig};
use polaroid::{ServiceError, StatusClass, Tier};

#[test]
fn test_duckdb_placeholder() {
    let backend = DuckDBBackend::new(":memory:".to_string());

    let result = backend.execute_sql(&"SELECT 1".to_string());
    assert!(result.is_err());
}

#[test]
fn test_readonly_operations() {
    let backend = DuckDBBackend::new(":memory:".to_string());

    assert!(backend.list_keys().is_err());
    assert!(backend.delete(&"key".to_string()).is_err());
}

#[test]
fn test_duckdb_store_load_refused() {
    let backend = DuckDBBackend::new(":memory:".to_string());
    let frame = Frame::new(
        vec![Field { name: "v".to_string(), dtype: LogicalType::Int64, nullable: false }],
        vec![ColumnData::Int64(vec![1])],
    )
    .unwrap();
    assert!(backend.store(&"k".to_string(), frame).is_err());
    assert!(backend.load(&"k".to_string()).is_err());
    assert_eq!(backend.stats().total_keys, 0);
}

#[test]
fn test_query_planner() {
    let planner = QueryPlanner::new();
    let plan = planner.plan(&"SELECT * FROM table".to_string()).unwrap();

    assert!(!plan.id.is_empty());
    assert_eq!(plan.stages.len(), 1);
    assert_eq!(plan.stages[0].id, 0);

    let optimized = planner.optimize(plan).unwrap();
    assert_eq!(optimized.stages.len(), 1);
}

#[test]
fn test_cache_key() {
    let k1 = CacheKey::from_query(&"SELECT * FROM t".to_string());
    let k2 = CacheKey::from_query(&"SELECT * FROM t".to_string());
    assert!(k1.same_key(&k2));
    assert_eq!(k1.schema_version, 0);

    let k3 = CacheKey::new("SELECT 1".to_string(), 7, 2);
    assert_eq!(k3.params_hash, 7);
    assert_eq!(k3.schema_version, 2);
    assert!(!k1.same_key(&k3));
}

#[test]
fn test_cache_config_default() {
    let config = CacheConfig::default();
    assert_eq!(config.max_capacity, 1000);
    assert_eq!(config.ttl_secs, 3600);
    assert_eq!(config.tti_secs, 1800);
    assert!(config.enable_lru);
}

#[test]
fn test_coordinator_creation() {
    let config = CoordinatorConfig::default();
    assert_eq!(config.heartbeat_timeout_secs, 30);
    let coordinator = Coordinator::new(config);
    assert_eq!(coordinator.config.leader_key_prefix, "/polaroid/leader");
}

#[test]
fn test_executor_config_default() {
    let config = ExecutorConfig::default();
    assert_eq!(config.max_concurrent_stages, 4);
    assert_eq!(config.stage_timeout_secs, 300);
    assert!(config.enable_streaming);
}

#[test]
fn test_connection_expiration() {
    let config = PoolConfig { max_connections: 10, idle_timeout_secs: 10, max_lifetime_secs: 100 };
    let mut conn = Connection::new("endpoint".to_string(), 0);

    assert!(!conn.is_expired(&config, 5));
    // Idle at least the idle timeout: expired.
    assert!(conn.is_expired(&config, 10));
    // Touching resets the idle clock.
    conn.touch(10);
    assert!(!conn.is_expired(&config, 15));
    // Past the maximum lifetime the connection expires whatever its use.
    conn.touch(100);
    assert!(conn.is_expired(&config, 101));

    // A zero idle timeout disables idling out.
    let config = PoolConfig { max_connections: 10, idle_timeout_secs: 0, max_lifetime_secs: 100 };
    let conn = Connection::new("endpoint".to_string(), 0);
    assert!(!conn.is_expired(&config, 50));
}

#[test]
fn test_error_status_classes() {
    assert_eq!(ServiceError::HandleNotFound.status_class(), StatusClass::NotFound);
    assert_eq!(ServiceError::HandleExpired.status_class(), StatusClass::DeadlineExceeded);
    assert_eq!(ServiceError::InvalidConfig.status_class(), StatusClass::InvalidArgument);
    assert_eq!(ServiceError::Io.status_class(), StatusClass::Unavailable);
    assert_eq!(ServiceError::Compute.status_class(), StatusClass::Internal);
    assert_eq!(
        ServiceError::PartialStore(Tier::Cache).status_class(),
        StatusClass::FailedPrecondition
    );
}

#[test]
fn test_pool_exhaustion_error_shape() {
    let e = polaroid::pool::SourceError::RetryExhausted {
        attempts: 3,
        last_error: "timeout".to_string(),
    };
    match e {
        polaroid::pool::SourceError::RetryExhausted { attempts, last_error } => {
            assert_eq!(attempts, 3);
            assert_eq!(last_error, "timeout");
        },
        _ => panic!("wrong variant"),
    }
}
