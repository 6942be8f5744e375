//! State of one client connection: the running query and its accounting, the snapshot of the
//! last query that saw rows, the judgments claimed in the running query, the credential scope
//! and the connection's result cache.
//!
//! The host keeps the synchronisation around it (locks, cancellation flags, the shared slots
//! that waiting invocations block on) and hands this state plain values: the clock, fresh
//! scope numbers and the credential fingerprint its hasher computed.

use vstd::prelude::*;

use crate::cache::{insertion, lookup_outcome, reconciled, CachePolicy, JudgmentCache};
use crate::judgment::{ErrorKind, IdentityView, JudgmentError, JudgmentIdentity, JudgmentResult};
use crate::metrics::{
    cache_hit_recorded, failed_request_recorded, inc, optimized_rows_recorded,
    profile_context_recorded, provider_attempt_recorded, provider_failure_recorded,
    provider_response_recorded, row_input_recorded, row_result_recorded, QueryCounts, QueryRecord,
};
use crate::provider::ProviderMetadata;

verus! {

/// How a query ended.
#[derive(Debug, Clone, Copy, PartialEq, Eq, Structural)]
pub enum QueryOutcome {
    Succeeded,
    Failed,
    Cancelled,
}

/// How a query ended, from the host's error type: the interrupt code means cancelled, zero
/// means success, anything else failure.
pub open spec fn query_outcome_spec(error_type: u32, interrupt_code: u32) -> QueryOutcome {
    if error_type == interrupt_code {
        QueryOutcome::Cancelled
    } else if error_type == 0 {
        QueryOutcome::Succeeded
    } else {
        QueryOutcome::Failed
    }
}

/// The outcome of a query from the host's error type: the interrupt code means cancelled, zero
/// means success, anything else failure.
pub fn query_outcome(error_type: u32, interrupt_code: u32) -> (r: QueryOutcome)
    ensures
        r == query_outcome_spec(error_type, interrupt_code),
{
    if error_type == interrupt_code {
        QueryOutcome::Cancelled
    } else if error_type == 0 {
        QueryOutcome::Succeeded
    } else {
        QueryOutcome::Failed
    }
}

/// What is kept of a query that ended after it saw at least one row.
#[derive(Debug, Clone)]
pub struct QuerySnapshot {
    pub query_id: u64,
    pub outcome: QueryOutcome,
    pub elapsed_ns: u64,
    pub counts: QueryCounts,
    pub provider: Option<String>,
    pub requested_model: Option<String>,
    pub detailed_timing: bool,
}

/// The running query: its record and the clock reading at its start.
#[derive(Debug, Clone)]
pub struct ActiveQuery {
    pub record: QueryRecord,
    pub started_ns: u64,
}

/// Mutable state whose lifetime is one client connection.
pub struct ConnectionRuntime {
    pub connection_scope: u64,
    pub credential_scope: u64,
    /// Fingerprint of the credential in use (`None`: no credential), never the credential.
    pub credential_fingerprint: Option<u64>,
    pub next_query_id: u64,
    pub active: Option<ActiveQuery>,
    pub last_query: Option<QuerySnapshot>,
    /// Judgments claimed in the running query, in claim order.
    pub claimed: Vec<JudgmentIdentity>,
    pub cache: JudgmentCache,
}

/// The credential scope after a credential with fingerprint `fingerprint` is used: the same
/// fingerprint keeps the current scope, another one takes the fresh scope.
pub open spec fn credential_outcome(
    current: Option<u64>,
    scope: u64,
    fingerprint: Option<u64>,
    fresh_scope: u64,
) -> u64 {
    if fingerprint == current {
        scope
    } else {
        fresh_scope
    }
}

/// A credential keeps its scope: using it again, whatever fresh scope is on offer, gives the
/// scope it was first given, so its cached results stay reachable.
pub proof fn law_credential_scope_is_stable(
    current: Option<u64>,
    scope: u64,
    fingerprint: Option<u64>,
    fresh_scope: u64,
    next_fresh_scope: u64,
)
    ensures
        credential_outcome(
            fingerprint,
            credential_outcome(current, scope, fingerprint, fresh_scope),
            fingerprint,
            next_fresh_scope,
        ) == credential_outcome(current, scope, fingerprint, fresh_scope),
{
}

/// A claim of `id` against the claims of the running query: the first claim owns the
/// request and is recorded; a later one shares it and records nothing.
pub open spec fn claim_outcome(claims: Seq<IdentityView>, id: IdentityView) -> (bool, Seq<
    IdentityView,
>) {
    if claims.contains(id) {
        (false, claims)
    } else {
        (true, claims.push(id))
    }
}

/// A judgment reaches the provider once per query: once a judgment has been claimed, claiming
/// it again shares the first claim and leaves the claims as they are.
pub proof fn law_second_claim_shares(claims: Seq<IdentityView>, id: IdentityView)
    ensures
        !claim_outcome(claim_outcome(claims, id).1, id).0,
        claim_outcome(claim_outcome(claims, id).1, id).1 == claim_outcome(claims, id).1,
{
    if !claims.contains(id) {
        assert(claims.push(id)[claims.len() as int] == id);
    }
}

/// `a - b`, or zero when `b` is larger.
pub open spec fn elapsed_between(start: u64, now: u64) -> u64 {
    if now >= start {
        (now - start) as u64
    } else {
        0
    }
}

/// The position of the first claim of `id`, if any.
pub open spec fn first_claim(claimed: Seq<IdentityView>, id: IdentityView) -> int {
    choose|k: int|
        0 <= k < claimed.len() && claimed[k] == id && (forall|m: int|
            0 <= m < k ==> claimed[m] != id)
}

/// The running query's record went through `step`; no query starts or stops.
pub open spec fn active_stepped(
    before: Option<ActiveQuery>,
    after: Option<ActiveQuery>,
    step: spec_fn(QueryRecord, QueryRecord) -> bool,
) -> bool {
    match before {
        None => after is None,
        Some(b) => after matches Some(a) && a.started_ns == b.started_ns && step(b.record, a.record),
    }
}

/// Everything but the running query is unchanged.
pub open spec fn only_active_changed(before: ConnectionRuntime, after: ConnectionRuntime) -> bool {
    after == (ConnectionRuntime { active: after.active, ..before })
}

impl ConnectionRuntime {
    /// The claimed identities, in claim order.
    pub open spec fn claims(&self) -> Seq<IdentityView> {
        self.claimed@.map_values(|i: JudgmentIdentity| i@)
    }

    /// Whether `query_scope` names the running query.
    pub open spec fn runs(&self, query_scope: u64) -> bool {
        self.active matches Some(a) && a.record.query_id == query_scope
    }

    pub open spec fn wf(&self) -> bool {
        self.cache.wf()
    }

    /// A connection with no query yet, its credential scope its own scope, and an empty
    /// cache.
    pub fn new(connection_scope: u64) -> (r: Self)
        ensures
            r.wf(),
            r.connection_scope == connection_scope,
            r.credential_scope == connection_scope,
            r.credential_fingerprint is None,
            r.next_query_id == 0,
            r.active is None,
            r.last_query is None,
            r.claims().len() == 0,
            r.cache.view().slots.len() == 0,
            r.cache.view().estimated_bytes == 0,
    {
        let r = ConnectionRuntime {
            connection_scope,
            credential_scope: connection_scope,
            credential_fingerprint: None,
            next_query_id: 0,
            active: None,
            last_query: None,
            claimed: Vec::new(),
            cache: JudgmentCache::new(),
        };
        assert(r.claims() =~= Seq::<IdentityView>::empty());
        r
    }

    /// Starts a query at `now_ns`. A query still running is dropped (the host cancels it);
    /// the claims of the previous query are forgotten; query ids wrap around.
    pub fn begin_query(&mut self, now_ns: u64)
        ensures
            final(self).connection_scope == old(self).connection_scope,
            final(self).credential_scope == old(self).credential_scope,
            final(self).credential_fingerprint == old(self).credential_fingerprint,
            final(self).last_query == old(self).last_query,
            final(self).cache == old(self).cache,
            final(self).next_query_id == old(self).next_query_id.wrapping_add(1),
            final(self).active matches Some(a) && a.started_ns == now_ns && a.record.query_id
                == old(self).next_query_id && a.record.counts.is_zero()
                && a.record.provider is None && a.record.requested_model is None
                && !a.record.detailed_timing,
            final(self).claims().len() == 0,
    {
        let query_id = self.next_query_id;
        self.next_query_id = self.next_query_id.wrapping_add(1);
        self.claimed = Vec::new();
        self.active = Some(ActiveQuery { record: QueryRecord::new(query_id), started_ns: now_ns });
        assert(self.claims() =~= Seq::<IdentityView>::empty());
    }

    /// Ends the running query with the host's error type at `now_ns`: its claims are
    /// forgotten and, when it saw rows, it becomes the last query with its outcome and wall
    /// time. Without a running query nothing changes.
    pub fn end_query(&mut self, error_type: u32, interrupt_code: u32, now_ns: u64)
        ensures
            old(self).active is None ==> final(self).active is None && final(self).last_query
                == old(self).last_query && final(self).claimed == old(self).claimed,
            old(self).active matches Some(a) ==> {
                &&& final(self).active is None
                &&& final(self).claims().len() == 0
                &&& a.record.counts.input_rows > 0 ==> final(self).last_query == Some(
                    QuerySnapshot {
                        query_id: a.record.query_id,
                        outcome: query_outcome_spec(error_type, interrupt_code),
                        elapsed_ns: elapsed_between(a.started_ns, now_ns),
                        counts: a.record.counts,
                        provider: a.record.provider,
                        requested_model: a.record.requested_model,
                        detailed_timing: a.record.detailed_timing,
                    },
                )
                &&& a.record.counts.input_rows == 0 ==> final(self).last_query
                    == old(self).last_query
            },
            final(self).connection_scope == old(self).connection_scope,
            final(self).credential_scope == old(self).credential_scope,
            final(self).credential_fingerprint == old(self).credential_fingerprint,
            final(self).next_query_id == old(self).next_query_id,
            final(self).cache == old(self).cache,
    {
        let taken = self.active.take();
        match taken {
            None => {},
            Some(active) => {
                self.claimed = Vec::new();
                assert(self.claims() =~= Seq::<IdentityView>::empty());
                if active.record.counts.input_rows > 0 {
                    let elapsed_ns = if now_ns >= active.started_ns {
                        now_ns - active.started_ns
                    } else {
                        0
                    };
                    let outcome = query_outcome(error_type, interrupt_code);
                    let record = active.record;
                    self.last_query = Some(
                        QuerySnapshot {
                            query_id: record.query_id,
                            outcome,
                            elapsed_ns,
                            counts: record.counts,
                            provider: record.provider,
                            requested_model: record.requested_model,
                            detailed_timing: record.detailed_timing,
                        },
                    );
                }
            },
        }
    }

    /// The connection's cache, for direct use.
    pub fn cache_mut(&mut self) -> (r: &mut JudgmentCache)
        ensures
            *r == old(self).cache,
            *final(self) == (ConnectionRuntime { cache: *final(r), ..*old(self) }),
    {
        &mut self.cache
    }

    /// The last query that ended after it saw rows.
    pub fn last_query(&self) -> (r: Option<&QuerySnapshot>)
        ensures
            match self.last_query {
                Some(s) => r == Some(&s),
                None => r is None,
            },
    {
        self.last_query.as_ref()
    }

    /// The connection scope and the scope of the running query (the next query's id when
    /// none runs). Neither holds a secret.
    pub fn identity_scopes(&self) -> (r: (u64, u64))
        ensures
            r.0 == self.connection_scope,
            r.1 == match self.active {
                Some(a) => a.record.query_id,
                None => self.next_query_id,
            },
    {
        let query_scope = match &self.active {
            Some(a) => a.record.query_id,
            None => self.next_query_id,
        };
        (self.connection_scope, query_scope)
    }

    /// Whether `query_scope` names the running query: waiting on its shared judgments is
    /// allowed only then.
    pub fn query_cancellation(&self, query_scope: u64) -> (r: Result<(), JudgmentError>)
        ensures
            r is Ok <==> self.runs(query_scope),
            r matches Err(e) ==> e.error_kind() == ErrorKind::Provider && e.error_text()
                == "query execution is no longer active"@,
    {
        match &self.active {
            Some(a) => {
                if a.record.query_id == query_scope {
                    return Ok(());
                }
            },
            None => {},
        }
        Err(JudgmentError::provider("query execution is no longer active"))
    }

    /// The credential scope for the running query. A credential whose fingerprint differs
    /// from the one in use takes the fresh scope and empties the cache, so no result cached
    /// under one credential is served under another.
    pub fn credential_scope(
        &mut self,
        query_scope: u64,
        fingerprint: Option<u64>,
        fresh_scope: u64,
    ) -> (r: Result<u64, JudgmentError>)
        requires
            old(self).wf(),
        ensures
            final(self).wf(),
            !old(self).runs(query_scope) ==> (r matches Err(e) && e.error_kind()
                == ErrorKind::Provider && e.error_text() == "query execution is no longer active"@
                && final(self).credential_scope == old(self).credential_scope
                && final(self).credential_fingerprint == old(self).credential_fingerprint
                && final(self).cache.view() == old(self).cache.view()),
            old(self).runs(query_scope) ==> r == Ok::<u64, JudgmentError>(
                credential_outcome(
                    old(self).credential_fingerprint,
                    old(self).credential_scope,
                    fingerprint,
                    fresh_scope,
                ),
            ),
            old(self).runs(query_scope) && fingerprint == old(self).credential_fingerprint ==> r
                == Ok::<u64, JudgmentError>(old(self).credential_scope)
                && final(self).credential_scope == old(self).credential_scope
                && final(self).credential_fingerprint == old(self).credential_fingerprint
                && final(self).cache.view() == old(self).cache.view(),
            old(self).runs(query_scope) && fingerprint != old(self).credential_fingerprint ==> r
                == Ok::<u64, JudgmentError>(fresh_scope) && final(self).credential_scope
                == fresh_scope && final(self).credential_fingerprint == fingerprint
                && final(self).cache.view().slots.len() == 0
                && final(self).cache.view().estimated_bytes == 0,
            final(self).connection_scope == old(self).connection_scope,
            final(self).next_query_id == old(self).next_query_id,
            final(self).active == old(self).active,
            final(self).last_query == old(self).last_query,
            final(self).claimed == old(self).claimed,
    {
        let running = match &self.active {
            Some(a) => a.record.query_id == query_scope,
            None => false,
        };
        if !running {
            return Err(JudgmentError::provider("query execution is no longer active"));
        }
        if fingerprint != self.credential_fingerprint {
            self.credential_fingerprint = fingerprint;
            self.credential_scope = fresh_scope;
            self.cache.clear();
        }
        Ok(self.credential_scope)
    }

    /// Claims `identity` in the running query. The first claim owns the request (a unique
    /// judgment) and is appended; a later one shares the first claim's slot (a deduplicated
    /// row). Returns the slot's position and whether the caller owns it.
    pub fn claim_query_entry(&mut self, query_scope: u64, identity: &JudgmentIdentity) -> (r:
        Result<(usize, bool), JudgmentError>)
        ensures
            !old(self).runs(query_scope) ==> (r matches Err(e) && e.error_kind()
                == ErrorKind::Provider && e.error_text() == "query execution is no longer active"@
                && final(self).active == old(self).active && final(self).claimed
                == old(self).claimed),
            old(self).runs(query_scope) ==> (r matches Ok((k, owner)) && {
                &&& (owner, final(self).claims()) == claim_outcome(old(self).claims(), identity@)
                &&& owner == !old(self).claims().contains(identity@)
                &&& owner ==> k == old(self).claims().len() && final(self).claims()
                    == old(self).claims().push(identity@)
                &&& !owner ==> k == first_claim(old(self).claims(), identity@)
                    && final(self).claimed == old(self).claimed
                &&& final(self).active matches Some(a) && old(self).active matches Some(b) && a
                    == (ActiveQuery {
                    record: QueryRecord {
                        counts: if owner {
                            QueryCounts {
                                unique_judgments: inc(b.record.counts.unique_judgments),
                                ..b.record.counts
                            }
                        } else {
                            QueryCounts {
                                deduplicated_rows: inc(b.record.counts.deduplicated_rows),
                                ..b.record.counts
                            }
                        },
                        ..b.record
                    },
                    ..b
                })
            }),
            final(self).connection_scope == old(self).connection_scope,
            final(self).credential_scope == old(self).credential_scope,
            final(self).credential_fingerprint == old(self).credential_fingerprint,
            final(self).next_query_id == old(self).next_query_id,
            final(self).last_query == old(self).last_query,
            final(self).cache == old(self).cache,
    {
        let taken = self.active.take();
        let mut active = match taken {
            Some(a) => a,
            None => {
                return Err(JudgmentError::provider("query execution is no longer active"));
            },
        };
        if active.record.query_id != query_scope {
            self.active = Some(active);
            return Err(JudgmentError::provider("query execution is no longer active"));
        }
        let n = self.claimed.len();
        let ghost claims = self.claims();
        let ghost before = *self;
        let ghost a0 = active;
        assert(before == (ConnectionRuntime { active: None, ..*old(self) }));
        let mut i: usize = 0;
        while i < n
            invariant
                n == self.claimed@.len(),
                claims == self.claims(),
                *self == before,
                before == (ConnectionRuntime { active: None, ..*old(self) }),
                active == a0,
                old(self).active == Some(a0),
                a0.record.query_id == query_scope,
                i <= n,
                forall|m: int| 0 <= m < i ==> claims[m] != identity@,
            decreases n - i,
        {
            if self.claimed[i].same_identity(identity) {
                assert(claims[i as int] == identity@);
                let ghost k = first_claim(claims, identity@);
                assert(k == i) by {
                    assert(0 <= i < claims.len() && claims[i as int] == identity@ && (forall|
                        m: int,
                    | 0 <= m < i ==> claims[m] != identity@));
                    if k < i {
                        assert(claims[k] != identity@);
                    } else if k > i {
                        assert(claims[i as int] != identity@);
                    }
                }
                active.record.record_claim(query_scope, true);
                self.active = Some(active);
                return Ok((i, false));
            }
            i = i + 1;
        }
        assert(!claims.contains(identity@)) by {
            if claims.contains(identity@) {
                let w = choose|w: int| 0 <= w < claims.len() && claims[w] == identity@;
                assert(claims[w] != identity@);
            }
        }
        self.claimed.push(identity.duplicate());
        assert(self.claims() =~= claims.push(identity@));
        active.record.record_claim(query_scope, false);
        self.active = Some(active);
        Ok((n, true))
    }

    /// Keeps the first provider and model named in the running query; detailed timing stays on. Nothing changes when `query_scope` is not the running query.
    pub fn record_profile_context(&mut self, query_scope: u64, provider: &str, requested_model: &str, detailed_timing: bool)
        ensures
            active_stepped(
                old(self).active,
                final(self).active,
                |b: QueryRecord, a: QueryRecord| profile_context_recorded(b, a, query_scope, provider@, requested_model@, detailed_timing),
            ),
            only_active_changed(*old(self), *final(self)),
    {
        let taken = self.active.take();
        if let Some(mut active) = taken {
            active.record.record_profile_context(query_scope, provider, requested_model, detailed_timing);
            self.active = Some(active);
        }
    }

    /// Counts the rows of an optimized chunk. Nothing changes when `query_scope` is not the running query.
    pub fn record_optimized_rows(&mut self, query_scope: u64, input_rows: usize, null_rows: usize, valid_rows: usize, unique_judgments: usize)
        ensures
            active_stepped(
                old(self).active,
                final(self).active,
                |b: QueryRecord, a: QueryRecord| optimized_rows_recorded(b, a, query_scope, input_rows, null_rows, valid_rows, unique_judgments),
            ),
            only_active_changed(*old(self), *final(self)),
    {
        let taken = self.active.take();
        if let Some(mut active) = taken {
            active.record.record_optimized_rows(query_scope, input_rows, null_rows, valid_rows, unique_judgments);
            self.active = Some(active);
        }
    }

    /// Counts a row-mode input row. Nothing changes when `query_scope` is not the running query.
    pub fn record_row_input(&mut self, query_scope: u64)
        ensures
            active_stepped(
                old(self).active,
                final(self).active,
                |b: QueryRecord, a: QueryRecord| row_input_recorded(b, a, query_scope),
            ),
            only_active_changed(*old(self), *final(self)),
    {
        let taken = self.active.take();
        if let Some(mut active) = taken {
            active.record.record_row_input(query_scope);
            self.active = Some(active);
        }
    }

    /// Counts a row-mode result. Nothing changes when `query_scope` is not the running query.
    pub fn record_row_result(&mut self, query_scope: u64, is_null: bool)
        ensures
            active_stepped(
                old(self).active,
                final(self).active,
                |b: QueryRecord, a: QueryRecord| row_result_recorded(b, a, query_scope, is_null),
            ),
            only_active_changed(*old(self), *final(self)),
    {
        let taken = self.active.take();
        if let Some(mut active) = taken {
            active.record.record_row_result(query_scope, is_null);
            self.active = Some(active);
        }
    }

    /// Counts a judgment served from the cache. Nothing changes when `query_scope` is not the running query.
    pub fn record_cache_hit(&mut self, query_scope: u64)
        ensures
            active_stepped(
                old(self).active,
                final(self).active,
                |b: QueryRecord, a: QueryRecord| cache_hit_recorded(b, a, query_scope),
            ),
            only_active_changed(*old(self), *final(self)),
    {
        let taken = self.active.take();
        if let Some(mut active) = taken {
            active.record.record_cache_hit(query_scope);
            self.active = Some(active);
        }
    }

    /// Counts a provider invocation. Nothing changes when `query_scope` is not the running query.
    pub fn record_provider_attempt(&mut self, query_scope: u64, batch_size: usize, external: bool)
        ensures
            active_stepped(
                old(self).active,
                final(self).active,
                |b: QueryRecord, a: QueryRecord| provider_attempt_recorded(b, a, query_scope, batch_size, external),
            ),
            only_active_changed(*old(self), *final(self)),
    {
        let taken = self.active.take();
        if let Some(mut active) = taken {
            active.record.record_provider_attempt(query_scope, batch_size, external);
            self.active = Some(active);
        }
    }

    /// Counts a failed request. Nothing changes when `query_scope` is not the running query.
    pub fn record_failed_request(&mut self, query_scope: u64)
        ensures
            active_stepped(
                old(self).active,
                final(self).active,
                |b: QueryRecord, a: QueryRecord| failed_request_recorded(b, a, query_scope),
            ),
            only_active_changed(*old(self), *final(self)),
    {
        let taken = self.active.take();
        if let Some(mut active) = taken {
            active.record.record_failed_request(query_scope);
            self.active = Some(active);
        }
    }

    /// Accounts an external request that failed. Nothing changes when `query_scope` is not the running query.
    pub fn record_provider_failure(&mut self, query_scope: u64, elapsed_ns: u64, external: bool)
        ensures
            active_stepped(
                old(self).active,
                final(self).active,
                |b: QueryRecord, a: QueryRecord| provider_failure_recorded(b, a, query_scope, elapsed_ns, external),
            ),
            only_active_changed(*old(self), *final(self)),
    {
        let taken = self.active.take();
        if let Some(mut active) = taken {
            active.record.record_provider_failure(query_scope, elapsed_ns, external);
            self.active = Some(active);
        }
    }

    /// Accounts a provider response. Nothing changes when `query_scope` is not the running query.
    pub fn record_provider_response(&mut self, query_scope: u64, metadata: &ProviderMetadata, elapsed_ns: u64, external: bool)
        ensures
            active_stepped(
                old(self).active,
                final(self).active,
                |b: QueryRecord, a: QueryRecord| provider_response_recorded(b, a, query_scope, *metadata, elapsed_ns, external),
            ),
            only_active_changed(*old(self), *final(self)),
    {
        let taken = self.active.take();
        if let Some(mut active) = taken {
            active.record.record_provider_response(query_scope, metadata, elapsed_ns, external);
            self.active = Some(active);
        }
    }

    /// A cached result for `identity` at `now_ns` under `policy`: the policy is applied to the
    /// cache first; an invalid policy serves nothing.
    pub fn cache_lookup(
        &mut self,
        identity: Option<&JudgmentIdentity>,
        now_ns: u64,
        policy: &CachePolicy,
    ) -> (r: Option<JudgmentResult>)
        requires
            old(self).wf(),
        ensures
            final(self).wf(),
            !policy.is_valid() ==> r is None && final(self).cache.view() == old(self).cache.view(),
            policy.is_valid() && identity is None ==> r is None && final(self).cache.view()
                == reconciled(old(self).cache.view(), now_ns, *policy),
            identity matches Some(id) ==> (policy.is_valid() ==> (r, final(self).cache.view())
                == lookup_outcome(reconciled(old(self).cache.view(), now_ns, *policy), id@, now_ns)),
            final(self).active == old(self).active,
            final(self).claimed == old(self).claimed,
            final(self).credential_scope == old(self).credential_scope,
    {
        if !self.cache.reconcile_policy(now_ns, policy) {
            return None;
        }
        match identity {
            Some(id) => self.cache.lookup(id, now_ns),
            None => None,
        }
    }

    /// Caches a validated success; see `JudgmentCache::insert_success`.
    pub fn cache_insert(
        &mut self,
        identity: JudgmentIdentity,
        result: JudgmentResult,
        now_ns: u64,
        policy: &CachePolicy,
    ) -> (r: bool)
        requires
            old(self).wf(),
        ensures
            final(self).wf(),
            (r, final(self).cache.view()) == insertion(
                old(self).cache.view(),
                identity@,
                result,
                now_ns,
                *policy,
            ),
            final(self).active == old(self).active,
            final(self).claimed == old(self).claimed,
            final(self).credential_scope == old(self).credential_scope,
    {
        self.cache.insert_success(identity, result, now_ns, policy)
    }

    /// Applies `policy` (when given) and then empties the cache; returns the number of
    /// entries removed by the emptying, so entries the policy already dropped do not count.
    pub fn clear_cache(&mut self, now_ns: u64, policy: Option<&CachePolicy>) -> (r: usize)
        requires
            old(self).wf(),
        ensures
            final(self).wf(),
            r == match policy {
                Some(p) => if p.is_valid() {
                    reconciled(old(self).cache.view(), now_ns, *p).slots.len()
                } else {
                    old(self).cache.view().slots.len()
                },
                None => old(self).cache.view().slots.len(),
            },
            final(self).cache.view().slots.len() == 0,
            final(self).cache.view().estimated_bytes == 0,
            final(self).active == old(self).active,
            final(self).claimed == old(self).claimed,
            final(self).credential_scope == old(self).credential_scope,
    {
        if let Some(p) = policy {
            self.cache.reconcile_policy(now_ns, p);
        }
        self.cache.clear()
    }

    /// Number of cache entries still fresh at `now_ns` (stale ones are removed first).
    pub fn cache_len(&mut self, now_ns: u64) -> (r: usize)
        requires
            old(self).wf(),
        ensures
            final(self).wf(),
            final(self).cache.view() == crate::cache::pruned(old(self).cache.view(), now_ns),
            r == final(self).cache.view().slots.len(),
            final(self).active == old(self).active,
    {
        self.cache.len(now_ns)
    }
}


/// Connection-wide request slots: how many are taken and the most ever taken at once.
#[derive(Debug, Clone, Copy, PartialEq, Eq, Structural)]
pub struct PermitCounts {
    pub active: usize,
    pub peak: usize,
}

impl PermitCounts {
    pub fn new() -> (r: Self)
        ensures
            r.active == 0,
            r.peak == 0,
    {
        PermitCounts { active: 0, peak: 0 }
    }

    /// One attempt to take a slot, at most `max_inflight` being in use: a non-positive limit
    /// and a cancelled query fail; a free slot is taken (`Some` with the new counts); otherwise
    /// the caller waits and tries again (`None`).
    pub fn try_acquire(&self, max_inflight: usize, cancelled: bool) -> (r: Result<
        Option<PermitCounts>,
        JudgmentError,
    >)
        ensures
            max_inflight == 0 ==> (r matches Err(e) && e.error_kind() == ErrorKind::Configuration
                && e.error_text() == "duckjeu_max_inflight must be positive"@),
            max_inflight > 0 && cancelled ==> (r matches Err(e) && e.error_kind()
                == ErrorKind::Provider && e.error_text()
                == "query was cancelled while waiting for an external request slot"@),
            max_inflight > 0 && !cancelled && self.active < max_inflight ==> r == Ok::<
                Option<PermitCounts>,
                JudgmentError,
            >(
                Some(
                    PermitCounts {
                        active: (self.active + 1) as usize,
                        peak: if self.peak > self.active + 1 {
                            self.peak
                        } else {
                            (self.active + 1) as usize
                        },
                    },
                ),
            ),
            max_inflight > 0 && !cancelled && self.active >= max_inflight ==> r == Ok::<
                Option<PermitCounts>,
                JudgmentError,
            >(None),
            r matches Ok(Some(c)) ==> c.active <= max_inflight && c.active <= c.peak,
    {
        if max_inflight == 0 {
            return Err(JudgmentError::configuration("duckjeu_max_inflight must be positive"));
        }
        if cancelled {
            return Err(
                JudgmentError::provider(
                    "query was cancelled while waiting for an external request slot",
                ),
            );
        }
        if self.active < max_inflight {
            let active = self.active + 1;
            let peak = if self.peak > active {
                self.peak
            } else {
                active
            };
            return Ok(Some(PermitCounts { active, peak }));
        }
        Ok(None)
    }

    /// A slot is returned.
    pub fn release(&self) -> (r: PermitCounts)
        ensures
            r.active == if self.active > 0 {
                self.active - 1
            } else {
                0
            },
            r.peak == self.peak,
    {
        PermitCounts { active: self.active.saturating_sub(1), peak: self.peak }
    }
}

} // verus!
