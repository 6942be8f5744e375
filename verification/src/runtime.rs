//! Host-injected execution state used by the shared executor.
//!
//! The host owns the query-local entries that identical judgments share, the cancellation
//! flag of the running query, the connection-wide request permits, the cache and the
//! clock. The executor reaches all of them only through this interface and verifies its own
//! decisions whatever the host returns.

use vstd::prelude::*;

use crate::cache::CachePolicy;
use crate::judgment::{JudgmentError, JudgmentIdentity, JudgmentResult};
use crate::provider::ProviderMetadata;

verus! {

/// Host services for one executing query.
pub trait ExecutionRuntime {
    /// A query-local slot shared by every scalar invocation that asks the same judgment.
    type Entry;
    /// The cancellation flag of the running query.
    type Cancellation;
    /// A connection-wide request slot, returned when dropped.
    type Permit;

    /// The slot for `identity` in this query, and whether the caller owns the request.
    fn claim_query_entry(&self, query_scope: u64, identity: &JudgmentIdentity) -> Result<
        (Self::Entry, bool),
        JudgmentError,
    >;

    fn query_cancellation(&self, query_scope: u64) -> Result<Self::Cancellation, JudgmentError>;

    /// Publishes the outcome of an owned slot (the first outcome wins).
    fn complete_entry(&self, entry: &Self::Entry, result: Result<JudgmentResult, JudgmentError>);

    /// Waits for the outcome of a slot owned elsewhere, or fails when the query is cancelled.
    fn wait_entry(&self, entry: &Self::Entry, cancelled: &Self::Cancellation) -> Result<
        JudgmentResult,
        JudgmentError,
    >;

    /// The rows of one optimized chunk once its judgments are grouped: NULL rows, rows with a
    /// judgment, and distinct judgments.
    fn record_chunk_rows(
        &self,
        query_scope: u64,
        null_rows: usize,
        valid_rows: usize,
        unique_judgments: usize,
    );

    fn record_cache_hit(&self, query_scope: u64);

    fn record_provider_attempt(&self, query_scope: u64, batch_size: usize, external: bool);

    fn record_failed_request(&self, query_scope: u64);

    fn record_provider_response(
        &self,
        query_scope: u64,
        metadata: &ProviderMetadata,
        elapsed_ns: u64,
        external: bool,
    );

    fn record_provider_failure(&self, query_scope: u64, elapsed_ns: u64, external: bool);

    fn cache_lookup(
        &self,
        identity: Option<&JudgmentIdentity>,
        now: u64,
        policy: &CachePolicy,
    ) -> Option<JudgmentResult>;

    fn cache_insert(
        &self,
        identity: JudgmentIdentity,
        result: JudgmentResult,
        now: u64,
        policy: &CachePolicy,
    );

    fn acquire_permit(&self, query_scope: u64, max_inflight: usize) -> Result<
        Self::Permit,
        JudgmentError,
    >;

    /// A monotonic clock in nanoseconds.
    fn now_ns(&self) -> u64;
}

} // verus!
