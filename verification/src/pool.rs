//! Connection pooling for data sources: pooled connections age out by a
//! maximum lifetime and an idle timeout.
//!
//! Time is carried as a caller-supplied clock reading in seconds, so the
//! expiry rule is stated exactly.
use vstd::prelude::*;

verus! {

/// What can go wrong while a pooled source connects and streams.
pub enum SourceError {
    Connection(String),
    Authentication(String),
    RateLimitExceeded(String),
    Encoding(String),
    InvalidSchema(String),
    Timeout(String),
    RetryExhausted { attempts: u32, last_error: String },
    WebSocket(String),
    Http(String),
    Grpc(String),
    Arrow(String),
    Config(String),
    Io(String),
    Other(String),
}

/// Limits of one endpoint's pool.
pub struct PoolConfig {
    pub max_connections: usize,
    pub idle_timeout_secs: u64,
    pub max_lifetime_secs: u64,
}

impl Default for PoolConfig {
    fn default() -> (r: PoolConfig)
        ensures
            r.max_connections == 10,
            r.idle_timeout_secs == 300,
            r.max_lifetime_secs == 3600,
    {
        PoolConfig { max_connections: 10, idle_timeout_secs: 300, max_lifetime_secs: 3600 }
    }
}

/// One pooled connection: where it points and when it was created and
/// last used, in clock seconds.
pub struct Connection {
    pub endpoint: String,
    pub created_at: u64,
    pub last_used: u64,
}

/// The expiry rule: over the maximum lifetime since creation, or — with a
/// nonzero idle timeout — idle for at least that timeout.
pub open spec fn connection_expired(c: Connection, config: PoolConfig, now: u64) -> bool {
    ||| now > c.created_at + config.max_lifetime_secs
    ||| (config.idle_timeout_secs > 0 && now >= c.last_used + config.idle_timeout_secs)
}

impl Connection {
    pub fn new(endpoint: String, now: u64) -> (r: Connection)
        ensures
            r.endpoint@ == endpoint@,
            r.created_at == now,
            r.last_used == now,
    {
        Connection { endpoint, created_at: now, last_used: now }
    }

    /// Whether the connection has aged out under the pool's limits.
    pub fn is_expired(&self, config: &PoolConfig, now: u64) -> (r: bool)
        ensures
            r == connection_expired(*self, *config, now),
    {
        if now > self.created_at && now - self.created_at > config.max_lifetime_secs {
            return true;
        }
        if config.idle_timeout_secs > 0 && now >= self.last_used && now - self.last_used
            >= config.idle_timeout_secs {
            return true;
        }
        false
    }

    /// Marks the connection as just used.
    pub fn touch(&mut self, now: u64)
        ensures
            final(self).endpoint == old(self).endpoint,
            final(self).created_at == old(self).created_at,
            final(self).last_used == now,
    {
        self.last_used = now;
    }
}

} // verus!
