//! Distributed execution data: worker descriptions, coordinator and
//! executor configuration, query plans, and the distributed cache key.
use vstd::prelude::*;

use crate::ServiceError;

verus! {

/// What a query's digest is. The digest is computed outside the core; the
/// same query text always digests to the same value within one process.
pub uninterp spec fn query_hash(query: Seq<char>) -> u64;

/// Relies on `std::hash::DefaultHasher`: created through `new` it is
/// documented to hash equal input to equal output in every instance, so
/// the digest is a function of the query text alone.
#[verifier::external_body]
fn hash_query(query: &String) -> (r: u64)
    ensures
        r == query_hash(query@),
{
    let mut hasher = std::hash::DefaultHasher::new();
    std::hash::Hash::hash(query.as_str(), &mut hasher);
    std::hash::Hasher::finish(&hasher)
}

/// The key of one cached query result: the query text, its parameter
/// digest, and the schema version it was planned against. Equality is
/// structural over all three.
pub struct CacheKey {
    pub query: String,
    pub params_hash: u64,
    pub schema_version: u64,
}

impl CacheKey {
    pub fn new(query: String, params_hash: u64, schema_version: u64) -> (r: CacheKey)
        ensures
            r.query@ == query@,
            r.params_hash == params_hash,
            r.schema_version == schema_version,
    {
        CacheKey { query, params_hash, schema_version }
    }

    /// A key for a bare query: the digest of its own text, at schema
    /// version zero.
    pub fn from_query(query: &String) -> (r: CacheKey)
        ensures
            r.query@ == query@,
            r.params_hash == query_hash(query@),
            r.schema_version == 0,
    {
        let h = hash_query(query);
        CacheKey { query: query.clone(), params_hash: h, schema_version: 0 }
    }

    /// Structural equality over all three parts.
    pub fn same_key(&self, other: &CacheKey) -> (r: bool)
        ensures
            r == (self.query@ == other.query@ && self.params_hash == other.params_hash
                && self.schema_version == other.schema_version),
    {
        self.query == other.query && self.params_hash == other.params_hash
            && self.schema_version == other.schema_version
    }
}

/// Distributed cache tuning.
pub struct CacheConfig {
    pub max_capacity: u64,
    pub ttl_secs: u64,
    pub tti_secs: u64,
    pub enable_lru: bool,
}

impl Default for CacheConfig {
    fn default() -> (r: CacheConfig)
        ensures
            r.max_capacity == 1000,
            r.ttl_secs == 3600,
            r.tti_secs == 1800,
            r.enable_lru,
    {
        CacheConfig { max_capacity: 1000, ttl_secs: 3600, tti_secs: 1800, enable_lru: true }
    }
}

/// Counters of the distributed cache.
pub struct CacheStats {
    pub entry_count: u64,
    pub weighted_size: u64,
}

/// What can go wrong in distributed execution.
#[derive(Debug)]
pub enum DistributedError {
    QueryPlanning(String),
    Execution { worker: String, error: String },
    Communication(String),
    NoWorkersAvailable,
    Cache(String),
    Coordination(String),
    Encoding(String),
    WorkerTimeout(String),
    Config(String),
    Other(String),
}

/// One worker's advertised description.
pub struct WorkerNode {
    pub id: String,
    pub endpoint: String,
    pub capabilities: Vec<String>,
    pub max_concurrent_tasks: usize,
    pub heartbeat_interval_secs: u64,
}

/// Coordinator settings: the registry endpoints and key layout.
pub struct CoordinatorConfig {
    pub registry_endpoints: Vec<String>,
    pub leader_key_prefix: String,
    pub worker_key_prefix: String,
    pub heartbeat_timeout_secs: u64,
}

impl Default for CoordinatorConfig {
    fn default() -> (r: CoordinatorConfig)
        ensures
            r.registry_endpoints.deep_view().len() == 1,
            r.registry_endpoints.deep_view()[0] == "http://localhost:2379"@,
            r.leader_key_prefix@ == "/polaroid/leader"@,
            r.worker_key_prefix@ == "/polaroid/workers"@,
            r.heartbeat_timeout_secs == 30,
    {
        let mut eps: Vec<String> = Vec::new();
        eps.push(String::from_str("http://localhost:2379"));
        proof {
            assert(eps.deep_view() =~= seq!["http://localhost:2379"@]);
        }
        CoordinatorConfig {
            registry_endpoints: eps,
            leader_key_prefix: String::from_str("/polaroid/leader"),
            worker_key_prefix: String::from_str("/polaroid/workers"),
            heartbeat_timeout_secs: 30,
        }
    }
}

/// The coordinator: holds its configuration; the registry connection is
/// wired up outside the verified core.
pub struct Coordinator {
    pub config: CoordinatorConfig,
}

impl Coordinator {
    pub fn new(config: CoordinatorConfig) -> (r: Coordinator)
        ensures
            r.config == config,
    {
        Coordinator { config }
    }
}

/// Executor settings.
pub struct ExecutorConfig {
    pub max_concurrent_stages: usize,
    pub stage_timeout_secs: u64,
    pub enable_streaming: bool,
}

impl Default for ExecutorConfig {
    fn default() -> (r: ExecutorConfig)
        ensures
            r.max_concurrent_stages == 4,
            r.stage_timeout_secs == 300,
            r.enable_streaming,
    {
        ExecutorConfig { max_concurrent_stages: 4, stage_timeout_secs: 300, enable_streaming: true }
    }
}

/// One worker as the executor sees it.
pub struct WorkerInfo {
    pub id: String,
    pub endpoint: String,
    pub available: bool,
    pub current_load: usize,
    pub max_load: usize,
}

/// One stage of a physical plan.
pub struct ExecutionStage {
    pub id: usize,
    pub description: String,
    pub assigned_worker: Option<String>,
    pub dependencies: Vec<usize>,
    pub estimated_rows: usize,
    pub estimated_size_bytes: usize,
}

/// A planned query: its identifier, the original text, and its stages.
pub struct QueryPlan {
    pub id: String,
    pub query: String,
    pub logical_plan: String,
    pub stages: Vec<ExecutionStage>,
}

/// The query planner. No optimizer is wired in: every query becomes one
/// stage that executes it whole.
pub struct QueryPlanner {}

impl QueryPlanner {
    pub fn new() -> (r: QueryPlanner) {
        QueryPlanner {  }
    }

    /// A single-stage plan for the query, under a fresh plan identifier.
    pub fn plan(&self, query: &String) -> (r: Result<QueryPlan, DistributedError>)
        ensures
            match r {
                Ok(p) => {
                    &&& p.id@.len() == 36
                    &&& p.query@ == query@
                    &&& p.stages@.len() == 1
                    &&& p.stages@[0].id == 0
                    &&& p.stages@[0].assigned_worker is None
                    &&& p.stages@[0].dependencies@.len() == 0
                    &&& p.stages@[0].estimated_rows == 1000
                    &&& p.stages@[0].estimated_size_bytes == 100_000
                },
                Err(_) => false,
            },
    {
        let id = crate::provider::plan_id();
        let stage = ExecutionStage {
            id: 0,
            description: query.clone(),
            assigned_worker: None,
            dependencies: Vec::new(),
            estimated_rows: 1000,
            estimated_size_bytes: 100_000,
        };
        let mut stages: Vec<ExecutionStage> = Vec::new();
        stages.push(stage);
        Ok(
            QueryPlan {
                id,
                query: query.clone(),
                logical_plan: String::from_str("single stage"),
                stages,
            },
        )
    }

    /// No optimizer is wired in: the plan is handed back unchanged.
    pub fn optimize(&self, plan: QueryPlan) -> (r: Result<QueryPlan, DistributedError>)
        ensures
            r matches Ok(p) && p == plan,
    {
        Ok(plan)
    }
}

} // verus!
