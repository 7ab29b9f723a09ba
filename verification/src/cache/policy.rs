//! Per-value caching policy and the classification of shared-tier outcomes.

use std::time::Duration;
use vstd::prelude::*;

verus! {

/// Why a shared-tier lookup did not produce a value.
#[derive(Clone, Copy, Debug, PartialEq, Eq, Structural)]
pub enum McErrorKind {
    /// The shared tier itself reported a failure.
    MemcacheInternal,
    /// The shared tier holds nothing under the key.
    Missing,
    /// The shared tier returned bytes that do not decode to a value.
    Deserialization,
}

/// The outcome of one shared-tier lookup.
pub type McResult<T> = Result<T, McErrorKind>;

/// How long a cached value may live.
#[derive(Copy, Clone)]
pub enum CacheTtl {
    NoTtl,
    Ttl(Duration),
}

/// Whether a value may be cached at all, and for how long.
#[derive(Copy, Clone)]
pub enum CacheDisposition {
    Cache(CacheTtl),
    Ignore,
}

} // verus!
