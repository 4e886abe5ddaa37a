use polaroid::ingest::{PaginationStrategy, RateLimiterConfig, RestApiConfig};
use polaroid::pool::PoolConfig;
use polaroid::sources::{CsvConfig, HttpConfig, KafkaConfig, SourceConfig};

#[test]
fn test_csv_config_default() {
    let config = CsvConfig::default();
    assert_eq!(config.delimiter, b',');
    assert!(config.has_header);
    assert_eq!(config.skip_rows, 0);
}

#[test]
fn test_pagination_strategy_default() {
    let strategy = PaginationStrategy::default();
    match strategy {
        PaginationStrategy::Offset { limit, .. } => assert_eq!(limit, 100),
        _ => panic!("Expected Offset strategy"),
    }
}

#[test]
fn test_source_config_builder() {
    let config = SourceConfig::new("s3://bucket/data.parquet".to_string())
        .with_memory_limit(4_000_000_000)
        .with_chunk_size(100_000)
        .with_parallel(true)
        .with_option("compression".to_string(), "snappy".to_string());

    assert_eq!(config.location, "s3://bucket/data.parquet");
    assert_eq!(config.memory_limit, Some(4_000_000_000));
    assert!(config.parallel);
    assert_eq!(
        config.option_value(&"compression".to_string()),
        Some(&"snappy".to_string())
    );
}

#[test]
fn test_http_config_default() {
    let config = HttpConfig::default();
    assert_eq!(config.method, "GET");
    assert_eq!(config.timeout_ms, 30000);
    assert_eq!(config.retry_attempts, 3);
    assert_eq!(config.retry_delay_ms, 1000);
}

#[test]
fn test_kafka_config_default() {
    let config = KafkaConfig::default();
    assert_eq!(config.brokers, vec!["localhost:9092".to_string()]);
    assert_eq!(config.group_id, "polaroid-consumer");
    assert_eq!(config.auto_offset_reset, "earliest");
    assert_eq!(config.max_poll_records, 500);
}

#[test]
fn test_rest_api_config_default() {
    let config = RestApiConfig::default();
    assert_eq!(config.method, "GET");
    assert_eq!(config.timeout_secs, 30);
    assert_eq!(config.max_pages, 0);
    assert_eq!(config.data_path, "data");
}

#[test]
fn test_rate_limiter_config_default() {
    let config = RateLimiterConfig::default();
    assert_eq!(config.requests_per_second, 10);
    assert_eq!(config.burst_size, 10);
}

#[test]
fn test_pool_config_default() {
    let config = PoolConfig::default();
    assert_eq!(config.max_connections, 10);
    assert_eq!(config.idle_timeout_secs, 300);
    assert_eq!(config.max_lifetime_secs, 3600);
}

#[test]
fn test_option_value_last_wins() {
    let config = SourceConfig::new("loc".to_string())
        .with_option("compression".to_string(), "snappy".to_string())
        .with_option("compression".to_string(), "zstd".to_string());
    assert_eq!(
        config.option_value(&"compression".to_string()),
        Some(&"zstd".to_string())
    );
    assert_eq!(config.option_value(&"missing".to_string()), None);
}
