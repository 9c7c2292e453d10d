//! The read orchestrator: one logical operation, "get the full collection".
//!
//! A request's cache lookup and its store call are blocking I/O, so the
//! embedding performs them and hands their outcomes in as plain values; the
//! orchestrator takes every decision between them.  The flow: serve a cache
//! hit (a hit that fails to decode is a fatal corruption error, not a miss);
//! on a miss, or with the cache unreachable, consult the breaker before any
//! store cost is incurred, failing fast when it rejects; after a permitted
//! store call, record its outcome on the breaker and, when the cache was
//! reachable, hand back the encoded snapshot for a best-effort write-back.

use vstd::prelude::*;

use crate::breaker::CircuitBreaker;
use crate::codec;
use crate::snapshot::Record;

verus! {

/// The well-known cache key under which the full collection is stored.
pub const COLLECTION_KEY: &'static str = "all";

/// What the cache layer reported for the collection key.
pub enum CacheLookup {
    /// No cache connection could be had: bypass the cache, not an error.
    Unavailable,
    /// A non-empty cached value.
    Hit(Vec<u8>),
    /// The cache answered and holds no value.
    Miss,
}

/// Why a request failed.
#[derive(Debug, Clone, Copy, PartialEq, Eq, Structural)]
pub enum ReadError {
    /// A cache hit's bytes were not a valid snapshot encoding.
    CacheDecodeFailure,
    /// The breaker rejected the store call: the store is being protected.
    ServiceDegraded,
    /// The permitted store call itself failed.
    StoreFailure,
}

/// Where a request stands once the cache outcome is known.
pub enum CachePhase {
    /// A valid cache hit: the decoded snapshot, store never touched.
    Served(Vec<Record>),
    /// The request failed; the store was never invoked.
    Failed(ReadError),
    /// The breaker permitted a store call; `write_back` says whether the
    /// cache was reachable and should receive the fetched snapshot.
    NeedStore { write_back: bool },
}

/// What the permitted store call came back with.
pub enum StoreOutcome {
    /// The full record set.
    Fetched(Vec<Record>),
    /// A query or connection failure.
    Failed,
}

/// Decides a request from its cache outcome.
///
/// A hit never touches the breaker: cache outcomes must not influence
/// breaker state.  A miss or an unreachable cache asks the breaker first;
/// when it rejects, the request fails as `ServiceDegraded` and the store
/// path is never entered.
pub fn handle_cache_lookup(breaker: &mut CircuitBreaker, lookup: CacheLookup, now: u64) -> (r:
    CachePhase)
    requires
        old(breaker).wf(),
    ensures
        final(breaker).wf(),
        match lookup {
            CacheLookup::Hit(bytes) => {
                &&& final(breaker)@ == old(breaker)@
                &&& match codec::parse(bytes@) {
                    Some(s) => r matches CachePhase::Served(v) && v.deep_view() == s,
                    None => r matches CachePhase::Failed(e) && e == ReadError::CacheDecodeFailure,
                }
            },
            CacheLookup::Miss => {
                &&& final(breaker)@ == old(breaker)@.begin_step(now)
                &&& if old(breaker)@.permitted(now) {
                    r matches CachePhase::NeedStore { write_back } && write_back == true
                } else {
                    r matches CachePhase::Failed(e) && e == ReadError::ServiceDegraded
                }
            },
            CacheLookup::Unavailable => {
                &&& final(breaker)@ == old(breaker)@.begin_step(now)
                &&& if old(breaker)@.permitted(now) {
                    r matches CachePhase::NeedStore { write_back } && write_back == false
                } else {
                    r matches CachePhase::Failed(e) && e == ReadError::ServiceDegraded
                }
            },
        },
{
    match lookup {
        CacheLookup::Hit(bytes) => match codec::decode(&bytes) {
            Some(records) => CachePhase::Served(records),
            None => CachePhase::Failed(ReadError::CacheDecodeFailure),
        },
        CacheLookup::Miss => {
            if breaker.begin_call(now) {
                CachePhase::NeedStore { write_back: true }
            } else {
                CachePhase::Failed(ReadError::ServiceDegraded)
            }
        },
        CacheLookup::Unavailable => {
            if breaker.begin_call(now) {
                CachePhase::NeedStore { write_back: false }
            } else {
                CachePhase::Failed(ReadError::ServiceDegraded)
            }
        },
    }
}

/// Finishes a request from its permitted store call's outcome.
///
/// A success is recorded on the breaker and served; when the cache was
/// reachable the snapshot's exact encoding comes back with it for the
/// best-effort write-back (its bytes decode to the served snapshot).  A
/// failure is recorded on the breaker and fails the request.
pub fn handle_store_outcome(
    breaker: &mut CircuitBreaker,
    outcome: StoreOutcome,
    write_back: bool,
    now: u64,
    jitter: u64,
) -> (r: Result<(Vec<Record>, Option<Vec<u8>>), ReadError>)
    requires
        old(breaker).wf(),
    ensures
        final(breaker).wf(),
        match outcome {
            StoreOutcome::Fetched(records) => {
                &&& final(breaker)@ == old(breaker)@.success_step(now)
                &&& r matches Ok(p) && p.0 == records && (if write_back {
                    p.1 matches Some(bytes) && bytes@ == codec::encoded(records.deep_view())
                        && codec::parse(bytes@) == Some(records.deep_view())
                } else {
                    p.1 is None
                })
            },
            StoreOutcome::Failed => {
                &&& final(breaker)@ == old(breaker)@.failure_step(now, jitter)
                &&& r matches Err(e) && e == ReadError::StoreFailure
            },
        },
{
    match outcome {
        StoreOutcome::Fetched(records) => {
            breaker.record_success(now);
            let update: Option<Vec<u8>> = if write_back {
                let bytes = codec::encode(&records);
                proof {
                    codec::lemma_parse_of_encoded(records.deep_view());
                }
                Some(bytes)
            } else {
                None
            };
            Ok((records, update))
        },
        StoreOutcome::Failed => {
            breaker.record_failure(now, jitter);
            Err(ReadError::StoreFailure)
        },
    }
}

} // verus!
