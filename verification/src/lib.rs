//! Resilient read-through access to a small collection resource.
//!
//! The library answers the "list all items" read path: a cache lookup, a
//! circuit-breaker-gated fallback to the authoritative store, best-effort
//! cache population, and graceful degradation when the cache itself is
//! unreachable.  The I/O itself (cache service, relational store, HTTP)
//! stays outside; the library holds every decision those calls feed.

pub mod breaker;
pub mod calories;
pub mod codec;
pub mod orchestrator;
pub mod snapshot;
