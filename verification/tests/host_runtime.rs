use duckjeu::cache::CachePolicy;
use duckjeu::host::{ConnectionRuntime, PermitCounts, QueryOutcome};
use duckjeu::judgment::{JudgmentIdentity, JudgmentIdentityContext, JudgmentRequest, JudgmentResult};
use duckjeu::provider::{ProviderMetadata, ProviderUsage};
use duckjeu::serialize::encode_text;

const INTERRUPT: u32 = 29;
const INVALID_INPUT: u32 = 32;

fn identity(state: &str, namespace: &str, credential_scope: u64, binding: u64) -> JudgmentIdentity {
    let request = JudgmentRequest::noul(encode_text(state), "criterion").unwrap();
    JudgmentIdentity::new(
        &request,
        JudgmentIdentityContext {
            provider_namespace: namespace.into(),
            endpoint: "https://api.typesafe.ai/v1/systemone".into(),
            requested_model: "jev-latest".into(),
            effective_model: None,
            credential_scope,
            model_binding_scope: binding,
        },
    )
}

#[test]
fn query_lifecycle_records_success_failure_and_cancellation() {
    let mut runtime = ConnectionRuntime::new(7);

    runtime.begin_query(100);
    let scope = runtime.identity_scopes().1;
    runtime.record_row_input(scope);
    runtime.end_query(0, INTERRUPT, 150);
    let success = runtime.last_query().unwrap();
    assert_eq!(success.query_id, 0);
    assert_eq!(success.outcome, QueryOutcome::Succeeded);
    assert_eq!(success.elapsed_ns, 50);

    runtime.begin_query(200);
    let scope = runtime.identity_scopes().1;
    runtime.record_row_input(scope);
    runtime.end_query(INVALID_INPUT, INTERRUPT, 260);
    let failure = runtime.last_query().unwrap();
    assert_eq!(failure.query_id, 1);
    assert_eq!(failure.outcome, QueryOutcome::Failed);

    runtime.begin_query(300);
    let scope = runtime.identity_scopes().1;
    runtime.record_row_input(scope);
    runtime.end_query(INTERRUPT, INTERRUPT, 301);
    let cancellation = runtime.last_query().unwrap();
    assert_eq!(cancellation.query_id, 2);
    assert_eq!(cancellation.outcome, QueryOutcome::Cancelled);

    // A query that saw no rows leaves the last snapshot in place.
    runtime.begin_query(400);
    runtime.end_query(0, INTERRUPT, 500);
    assert_eq!(runtime.last_query().unwrap().query_id, 2);
}

#[test]
fn query_counts_separate_dedup_cache_provider_and_network_attempts() {
    let mut runtime = ConnectionRuntime::new(1);
    runtime.begin_query(0);
    let query_scope = runtime.identity_scopes().1;
    runtime.record_optimized_rows(query_scope, 4, 1, 3, 2);
    for state in ["first", "second"] {
        let id = identity(state, "typesafe", 1, query_scope);
        runtime.claim_query_entry(query_scope, &id).unwrap();
    }
    runtime.record_cache_hit(query_scope);
    runtime.record_provider_attempt(query_scope, 2, true);
    runtime.record_provider_attempt(query_scope, 1, false);
    runtime.record_failed_request(query_scope);
    runtime.end_query(INVALID_INPUT, INTERRUPT, 10);

    let counts = &runtime.last_query().unwrap().counts;
    assert_eq!(counts.input_rows, 4);
    assert_eq!(counts.null_rows, 1);
    assert_eq!(counts.valid_rows, 3);
    assert_eq!(counts.unique_judgments, 2);
    assert_eq!(counts.deduplicated_rows, 1);
    assert_eq!(counts.cache_hit_judgments, 1);
    assert_eq!(counts.provider_invocations, 2);
    assert_eq!(counts.external_requests, 1);
    assert_eq!(counts.batched_requests, 1);
    assert_eq!(counts.batch_size_histogram, vec![(2, 1)]);
    assert_eq!(counts.failed_requests, 1);
}

#[test]
fn row_mode_counts_nulls_and_provider_requests_without_deduplication() {
    let mut runtime = ConnectionRuntime::new(1);
    runtime.begin_query(0);
    let query_scope = runtime.identity_scopes().1;
    runtime.record_row_input(query_scope);
    runtime.record_row_result(query_scope, false);
    runtime.record_provider_attempt(query_scope, 1, true);
    runtime.record_row_input(query_scope);
    runtime.record_row_result(query_scope, true);
    runtime.end_query(0, INTERRUPT, 1);

    let counts = &runtime.last_query().unwrap().counts;
    assert_eq!(counts.input_rows, 2);
    assert_eq!(counts.valid_rows, 1);
    assert_eq!(counts.unique_judgments, 1);
    assert_eq!(counts.null_rows, 1);
    assert_eq!(counts.deduplicated_rows, 0);
    assert_eq!(counts.external_requests, 1);
}

#[test]
fn temporary_dedup_results_are_cleared_when_query_ends() {
    let mut runtime = ConnectionRuntime::new(3);
    runtime.begin_query(0);
    let (connection_scope, query_scope) = runtime.identity_scopes();
    let id = identity("private state", "mock", connection_scope, query_scope);
    let (slot, owner) = runtime.claim_query_entry(query_scope, &id).unwrap();
    assert!(owner);
    assert_eq!(slot, 0);
    let (again, owner) = runtime.claim_query_entry(query_scope, &id).unwrap();
    assert!(!owner);
    assert_eq!(again, 0);

    runtime.end_query(0, INTERRUPT, 1);
    assert!(runtime.claim_query_entry(query_scope, &id).is_err());

    runtime.begin_query(2);
    let next_scope = runtime.identity_scopes().1;
    let (slot, owner) = runtime.claim_query_entry(next_scope, &id).unwrap();
    assert!(owner, "the next query starts with no claims");
    assert_eq!(slot, 0);
}

#[test]
fn credential_scope_rotates_and_clears_cache_without_retaining_secret() {
    let mut runtime = ConnectionRuntime::new(5);
    runtime.begin_query(0);
    let query_scope = runtime.identity_scopes().1;
    let initial_scope = runtime.credential_scope(query_scope, None, 90).unwrap();
    assert_eq!(initial_scope, 5);
    assert_eq!(runtime.credential_scope(query_scope, None, 91).unwrap(), initial_scope);

    let id = identity("state", "mock", initial_scope, query_scope);
    let policy = CachePolicy { max_entries: 2, max_bytes: 10_000, ttl_nanos: 10_000_000_000 };
    assert!(runtime.cache_insert(id, JudgmentResult::Noul(0.5f64.to_bits()), 1, &policy));
    assert_eq!(runtime.cache_len(2), 1);

    let token_scope = runtime.credential_scope(query_scope, Some(0xA), 92).unwrap();
    assert_eq!(token_scope, 92);
    assert_eq!(runtime.cache_len(3), 0);
    assert_eq!(runtime.credential_scope(query_scope, Some(0xA), 93).unwrap(), token_scope);
    let rotated_scope = runtime.credential_scope(query_scope, Some(0xB), 94).unwrap();
    assert_ne!(rotated_scope, token_scope);
    assert_eq!(rotated_scope, 94);
    assert_eq!(runtime.credential_fingerprint, Some(0xB));

    runtime.end_query(0, INTERRUPT, 4);
    assert!(runtime.credential_scope(query_scope, None, 95).is_err());
}

#[test]
fn records_for_another_query_are_ignored() {
    let mut runtime = ConnectionRuntime::new(1);
    runtime.begin_query(0);
    let scope = runtime.identity_scopes().1;
    runtime.record_row_input(scope + 1);
    runtime.record_cache_hit(scope + 1);
    runtime.record_profile_context(scope, "typesafe", "jev-latest", false);
    runtime.record_profile_context(scope, "mock", "other", true);
    runtime.record_row_input(scope);
    runtime.end_query(0, INTERRUPT, 0);
    let snapshot = runtime.last_query().unwrap();
    assert_eq!(snapshot.counts.input_rows, 1);
    assert_eq!(snapshot.counts.cache_hit_judgments, 0);
    assert_eq!(snapshot.provider.as_deref(), Some("typesafe"));
    assert_eq!(snapshot.requested_model.as_deref(), Some("jev-latest"));
    assert!(snapshot.detailed_timing);
}

#[test]
fn provider_response_accounts_usage_models_and_timing() {
    let mut runtime = ConnectionRuntime::new(1);
    runtime.begin_query(0);
    let scope = runtime.identity_scopes().1;
    runtime.record_profile_context(scope, "typesafe", "jev-latest", true);
    let metadata = ProviderMetadata {
        requested_model: Some("jev-latest".into()),
        effective_model: Some("jev-1.13.0".into()),
        usage: Some(ProviderUsage { input_tokens: Some(10), output_tokens: Some(2) }),
        inference_time_ms: Some(7),
        serialization_time_ns: Some(300),
        external_roundtrip_ns: None,
    };
    runtime.record_provider_response(scope, &metadata, 5_000, true);
    runtime.record_provider_response(scope, &metadata, 5_000, true);
    runtime.record_provider_failure(scope, 1_000, true);
    runtime.record_row_input(scope);
    runtime.end_query(0, INTERRUPT, 1);
    let counts = &runtime.last_query().unwrap().counts;
    assert_eq!(counts.reported_models, vec!["jev-1.13.0".to_string()]);
    assert_eq!(counts.input_tokens, Some(20));
    assert_eq!(counts.output_tokens, Some(4));
    assert_eq!(counts.usage_response_count, 2);
    assert_eq!(counts.usage_missing_count, 1);
    assert_eq!(counts.inference_time_ms, 14);
    assert_eq!(counts.inference_observed_count, 2);
    assert_eq!(counts.inference_missing_count, 1);
    assert_eq!(counts.external_roundtrip_ns, 11_000);
    assert_eq!(counts.external_roundtrip_count, 3);
    assert_eq!(counts.serialization_time_ns, 600);
    assert_eq!(counts.serialization_observed_count, 2);
}

#[test]
fn clearing_the_cache_reports_entries_still_held_after_the_policy() {
    let mut runtime = ConnectionRuntime::new(2);
    runtime.begin_query(0);
    let scope = runtime.identity_scopes().1;
    let policy = CachePolicy { max_entries: 10, max_bytes: 100_000, ttl_nanos: 100 };
    assert!(runtime.cache_insert(identity("a", "mock", 2, scope), JudgmentResult::Noul(0), 0, &policy));
    assert!(runtime.cache_insert(identity("b", "mock", 2, scope), JudgmentResult::Noul(0), 50, &policy));
    // At 120 the first entry has expired under the policy and is not counted.
    assert_eq!(runtime.clear_cache(120, Some(&policy)), 1);
    assert_eq!(runtime.cache_len(121), 0);

    assert!(runtime.cache_insert(identity("c", "mock", 2, scope), JudgmentResult::Noul(0), 200, &policy));
    assert_eq!(runtime.clear_cache(1_000, None), 1, "without a policy every held entry counts");
}

#[test]
fn request_permits_enforce_connection_limit_and_cancel_waiters() {
    let free = PermitCounts::new();
    let one = free.try_acquire(1, false).unwrap().unwrap();
    assert_eq!(one, PermitCounts { active: 1, peak: 1 });
    // The only slot is taken: the next caller waits.
    assert_eq!(one.try_acquire(1, false).unwrap(), None);
    // Returning the slot lets the waiter in; the peak stays one.
    let returned = one.release();
    assert_eq!(returned, PermitCounts { active: 0, peak: 1 });
    let again = returned.try_acquire(1, false).unwrap().unwrap();
    assert_eq!(again, PermitCounts { active: 1, peak: 1 });
    // A cancelled query stops waiting.
    let error = again.try_acquire(1, true).unwrap_err();
    assert_eq!(error.message(), "query was cancelled while waiting for an external request slot");
    let error = free.try_acquire(0, false).unwrap_err();
    assert_eq!(error.message(), "duckjeu_max_inflight must be positive");
    let two = again.try_acquire(2, false).unwrap().unwrap();
    assert_eq!(two, PermitCounts { active: 2, peak: 2 });
    assert_eq!(PermitCounts::new().release(), PermitCounts::new());
}

#[test]
fn only_the_running_query_may_wait_on_shared_judgments() {
    let mut state = ConnectionRuntime::new(7);
    let scope = state.identity_scopes().1;
    assert!(state.query_cancellation(scope).is_err(), "no query runs yet");
    state.begin_query(0);
    let scope = state.identity_scopes().1;
    assert!(state.query_cancellation(scope).is_ok());
    let error = state.query_cancellation(scope + 1).unwrap_err();
    assert_eq!(error.message(), "query execution is no longer active");
    state.end_query(0, 0, 10);
    assert!(state.query_cancellation(scope).is_err());
}
