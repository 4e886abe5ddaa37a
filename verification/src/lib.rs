//! The verified core of a columnar data-frame service: frames and their
//! codec, the handle registry with its time-to-live rules, the adaptive
//! and parallel readers, and the tiered cache-over-cold storage engine.
//! Everything that touches the filesystem, the network or the clock stays
//! outside this crate and hands plain values in.
use vstd::prelude::*;

pub mod frame;
pub mod cache;
pub mod chunk;
pub mod codec;
pub mod distrib;
pub mod duckdb_backend;
pub mod memory;
pub mod parallel;
pub mod provider;
pub mod reader;
pub mod storage;
pub mod storage_stats;
pub mod handles;
pub mod ingest;
pub mod pool;
pub mod sources;

verus! {

/// A storage tier of the hybrid engine.
#[derive(Debug)]
pub enum Tier {
    Cache,
    Cold,
}

/// The error taxonomy of the service core.
#[derive(Debug)]
pub enum ServiceError {
    HandleNotFound,
    HandleExpired,
    InvalidHandleFormat,
    NoData,
    InvalidConfig,
    Io,
    Compute,
    MemoryLimit,
    Unsupported,
    SchemaMismatch,
    InvalidKey,
    PartialStore(Tier),
    Timeout,
    Cancelled,
}

/// The coarse, user-visible status class an error maps to at the RPC
/// boundary.
#[derive(Clone, Copy, PartialEq, Eq, Structural, Debug)]
pub enum StatusClass {
    NotFound,
    InvalidArgument,
    DeadlineExceeded,
    Unavailable,
    Internal,
    FailedPrecondition,
}

/// The stable mapping from an error to its status class.
pub open spec fn status_of(e: ServiceError) -> StatusClass {
    match e {
        ServiceError::HandleNotFound => StatusClass::NotFound,
        ServiceError::HandleExpired => StatusClass::DeadlineExceeded,
        ServiceError::Timeout => StatusClass::DeadlineExceeded,
        ServiceError::Cancelled => StatusClass::DeadlineExceeded,
        ServiceError::InvalidHandleFormat => StatusClass::InvalidArgument,
        ServiceError::InvalidConfig => StatusClass::InvalidArgument,
        ServiceError::InvalidKey => StatusClass::InvalidArgument,
        ServiceError::Unsupported => StatusClass::InvalidArgument,
        ServiceError::Io => StatusClass::Unavailable,
        ServiceError::NoData => StatusClass::Internal,
        ServiceError::Compute => StatusClass::Internal,
        ServiceError::SchemaMismatch => StatusClass::Internal,
        ServiceError::MemoryLimit => StatusClass::Internal,
        ServiceError::PartialStore(_) => StatusClass::FailedPrecondition,
    }
}

impl ServiceError {
    /// The coarse status the error surfaces as.
    pub fn status_class(&self) -> (r: StatusClass)
        ensures
            r == status_of(*self),
    {
        match self {
            ServiceError::HandleNotFound => StatusClass::NotFound,
            ServiceError::HandleExpired => StatusClass::DeadlineExceeded,
            ServiceError::Timeout => StatusClass::DeadlineExceeded,
            ServiceError::Cancelled => StatusClass::DeadlineExceeded,
            ServiceError::InvalidHandleFormat => StatusClass::InvalidArgument,
            ServiceError::InvalidConfig => StatusClass::InvalidArgument,
            ServiceError::InvalidKey => StatusClass::InvalidArgument,
            ServiceError::Unsupported => StatusClass::InvalidArgument,
            ServiceError::Io => StatusClass::Unavailable,
            ServiceError::NoData => StatusClass::Internal,
            ServiceError::Compute => StatusClass::Internal,
            ServiceError::SchemaMismatch => StatusClass::Internal,
            ServiceError::MemoryLimit => StatusClass::Internal,
            ServiceError::PartialStore(_) => StatusClass::FailedPrecondition,
        }
    }
}

} // verus!
