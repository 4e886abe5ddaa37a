//! Statistics reported by the storage tiers.
use vstd::prelude::*;

verus! {

/// Counters a storage tier reports: held keys, resident bytes, cache
/// counters, and the compression ratio in percent (100 means uncompressed).
pub struct StorageStats {
    pub total_keys: u64,
    pub total_size_bytes: u64,
    pub cache_hits: u64,
    pub cache_misses: u64,
    pub compression_ratio_percent: u64,
}

} // verus!
