//! Placeholder SQL backend: the read-through engine is optional, and this
//! build provides none, so every operation reports `Unsupported`.
use vstd::prelude::*;

use crate::frame::Frame;
use crate::storage_stats::StorageStats;
use crate::ServiceError;

verus! {

/// A SQL analytics backend over the cold tier. No engine is wired in, so
/// the backend only records its configuration and refuses every call.
pub struct DuckDBBackend {
    pub db_path: String,
}

impl DuckDBBackend {
    pub fn new(db_path: String) -> (r: DuckDBBackend)
        ensures
            r.db_path@ == db_path@,
    {
        DuckDBBackend { db_path }
    }

    /// SQL execution is not provided by this backend.
    pub fn execute_sql(&self, _sql: &String) -> (r: Result<Frame, ServiceError>)
        ensures
            r matches Err(e) && e is Unsupported,
    {
        Err(ServiceError::Unsupported)
    }

    /// The backend holds no keyed data, so stores are refused.
    pub fn store(&self, _key: &String, _frame: Frame) -> (r: Result<(), ServiceError>)
        ensures
            r matches Err(e) && e is Unsupported,
    {
        Err(ServiceError::Unsupported)
    }

    /// The backend holds no keyed data, so loads are refused.
    pub fn load(&self, _key: &String) -> (r: Result<Option<Frame>, ServiceError>)
        ensures
            r matches Err(e) && e is Unsupported,
    {
        Err(ServiceError::Unsupported)
    }

    /// The backend holds no keyed data, so it lists no keys.
    pub fn list_keys(&self) -> (r: Result<Vec<String>, ServiceError>)
        ensures
            r matches Err(e) && e is Unsupported,
    {
        Err(ServiceError::Unsupported)
    }

    /// The backend holds no keyed data, so deletes are refused.
    pub fn delete(&self, _key: &String) -> (r: Result<(), ServiceError>)
        ensures
            r matches Err(e) && e is Unsupported,
    {
        Err(ServiceError::Unsupported)
    }

    /// Nothing is held, so every counter reads zero.
    pub fn stats(&self) -> (r: StorageStats)
        ensures
            r.total_keys == 0,
            r.total_size_bytes == 0,
            r.cache_hits == 0,
            r.cache_misses == 0,
            r.compression_ratio_percent == 100,
    {
        StorageStats {
            total_keys: 0,
            total_size_bytes: 0,
            cache_hits: 0,
            cache_misses: 0,
            compression_ratio_percent: 100,
        }
    }
}

} // verus!
