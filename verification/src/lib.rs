//! A request-multiplexing gateway core for a rate-limited upstream API.
//!
//! Many callers share a pool of bearer credentials ("API keys"). The gateway
//! deduplicates concurrent requests for the same upstream resource, picks an
//! eligible key under a per-key minimum request interval, executes the
//! upstream call once, fans the outcome out to every waiting caller, and
//! caches successful bodies.

pub mod cache;
pub mod inflight;
pub mod outcome;
pub mod request;
pub mod scheduler;
pub mod usage;
pub mod weeks;

use vstd::prelude::*;

verus! {

/// Default time-to-live, in seconds, for a cached response body when the
/// submission carries no explicit cache-time hint.
pub const DEFAULT_CACHE_TTL_SECONDS: u64 = 1800;

/// The time-to-live to apply when writing a successful body to the cache:
/// the submission's own hint when present, otherwise the default.
pub fn ttl_for(cache_time: Option<u64>) -> (r: u64)
    ensures
        r == spec_ttl_for(cache_time),
{
    match cache_time {
        Option::Some(t) => t,
        Option::None => DEFAULT_CACHE_TTL_SECONDS,
    }
}

/// What `ttl_for` returns.
pub open spec fn spec_ttl_for(cache_time: Option<u64>) -> u64 {
    match cache_time {
        Option::Some(t) => t,
        Option::None => DEFAULT_CACHE_TTL_SECONDS,
    }
}

} // verus!
