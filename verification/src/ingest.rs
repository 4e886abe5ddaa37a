//! Configuration for the network ingestion sources: REST pagination, gRPC
//! streams, and rate limiting.
use vstd::prelude::*;

verus! {

/// How a REST source pages through results.
pub enum PaginationStrategy {
    Offset { limit: usize, offset_param: String, limit_param: String },
    Cursor { cursor_param: String, next_cursor_field: String },
    LinkHeader { rel: String },
    PageNumber { page_param: String, size_param: String, size: usize },
}

impl Default for PaginationStrategy {
    /// Offset pagination with a page size of one hundred.
    fn default() -> (r: PaginationStrategy)
        ensures
            r matches PaginationStrategy::Offset { limit, offset_param, limit_param } && limit
                == 100 && offset_param@ == "offset"@ && limit_param@ == "limit"@,
    {
        PaginationStrategy::Offset {
            limit: 100,
            offset_param: String::from_str("offset"),
            limit_param: String::from_str("limit"),
        }
    }
}

/// How one REST API source is fetched and paged.
pub struct RestApiConfig {
    pub base_url: String,
    pub endpoint: String,
    pub method: String,
    pub headers: Vec<(String, String)>,
    pub body: Option<String>,
    pub query_params: Vec<(String, String)>,
    pub pagination: PaginationStrategy,
    pub timeout_secs: u64,
    pub max_pages: usize,
    pub data_path: String,
}

impl Default for RestApiConfig {
    fn default() -> (r: RestApiConfig)
        ensures
            r.base_url@.len() == 0,
            r.endpoint@.len() == 0,
            r.method@ == "GET"@,
            r.headers@.len() == 0,
            r.body is None,
            r.query_params@.len() == 0,
            (r.pagination matches PaginationStrategy::Offset { limit, .. } && limit == 100),
            r.timeout_secs == 30,
            r.max_pages == 0,
            r.data_path@ == "data"@,
    {
        RestApiConfig {
            base_url: String::new(),
            endpoint: String::new(),
            method: String::from_str("GET"),
            headers: Vec::new(),
            body: None,
            query_params: Vec::new(),
            pagination: Default::default(),
            timeout_secs: 30,
            max_pages: 0,
            data_path: String::from_str("data"),
        }
    }
}

/// How one gRPC stream source connects.
pub struct GrpcStreamConfig {
    pub endpoint: String,
    pub service: String,
    pub method: String,
    pub request: Option<String>,
    pub timeout_secs: u64,
}

/// Request-rate limits for a source.
pub struct RateLimiterConfig {
    pub requests_per_second: u32,
    pub burst_size: u32,
}

impl Default for RateLimiterConfig {
    fn default() -> (r: RateLimiterConfig)
        ensures
            r.requests_per_second == 10,
            r.burst_size == 10,
    {
        RateLimiterConfig { requests_per_second: 10, burst_size: 10 }
    }
}

} // verus!
