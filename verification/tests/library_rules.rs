use duckjeu::config::{
    credential_choice, non_blank_credential, provider_context_from_values, RuntimeConfig,
};
use duckjeu::executor::{
    batch_judgment_limit, batch_results, check_batch_capability, RowTarget,
};
use duckjeu::functions::{
    cache_policy_for, check_row_capabilities, execution_limits, identity_context_for,
    output_cell, results_by_row, row_result, status, top_level_null, FunctionKind, OutputCell,
};
use duckjeu::host::{query_outcome, ConnectionRuntime, QueryOutcome};
use duckjeu::judgment::{ErrorKind, JudgmentRequest, JudgmentResult};
use duckjeu::mock::{millionths_to_bits, MockProvider};
use duckjeu::provider::{
    provider_setup, CapabilityStatus, Provider, ProviderAnswer, ProviderBatchResult,
    ProviderCapabilities, ProviderContext, ProviderKind, ProviderMetadata, ProviderSetup,
};
use duckjeu::serialize::encode_text;

fn noul(p: f64) -> JudgmentResult {
    JudgmentResult::Noul(p.to_bits())
}

fn target(row: usize) -> RowTarget {
    RowTarget { function_invocation: 1, data_chunk: 1, row }
}

fn capabilities(multi: CapabilityStatus, max_batch: Option<usize>, max_choices: Option<usize>) -> ProviderCapabilities {
    ProviderCapabilities {
        protocol_version: "test/1".into(),
        noul: CapabilityStatus::Verified,
        choice: CapabilityStatus::Unknown,
        multi_state_batch: multi,
        max_batch_judgments: max_batch,
        max_choices,
    }
}

#[test]
fn each_function_writes_its_own_cell() {
    assert_eq!(output_cell(FunctionKind::Prob, &noul(0.25)), OutputCell::Double(0.25f64.to_bits()));
    assert_eq!(output_cell(FunctionKind::Bool, &noul(0.5)), OutputCell::Boolean(true));
    assert_eq!(output_cell(FunctionKind::Bool, &noul(0.49999)), OutputCell::Boolean(false));
    assert_eq!(
        output_cell(FunctionKind::Choice, &JudgmentResult::Choice("b".into())),
        OutputCell::Text("b".into())
    );
    assert_eq!(output_cell(FunctionKind::Choice, &noul(0.5)), OutputCell::Untouched);
}

#[test]
fn top_level_nulls_short_circuit() {
    assert!(top_level_null(FunctionKind::Prob, true, false, false));
    assert!(top_level_null(FunctionKind::Bool, false, true, false));
    assert!(!top_level_null(FunctionKind::Prob, false, false, true), "prob has no label list");
    assert!(top_level_null(FunctionKind::Choice, false, false, true));
    assert!(!top_level_null(FunctionKind::Choice, false, false, false));
}

#[test]
fn results_are_placed_by_row_and_missing_rows_stay_null() {
    let executed = vec![(target(2), noul(0.1)), (target(0), noul(0.9)), (target(2), noul(0.3))];
    let rows = results_by_row(4, &executed);
    assert_eq!(rows, vec![Some(noul(0.9)), None, Some(noul(0.3)), None]);
}

#[test]
fn row_mode_accepts_exactly_one_valid_answer_for_the_key() {
    let request = JudgmentRequest::noul(encode_text("s"), "q").unwrap();
    let answer = |key: &str, result: JudgmentResult| ProviderAnswer { request_key: key.into(), result };
    let ok = ProviderBatchResult { answers: vec![answer("r0", noul(0.4))], metadata: ProviderMetadata::empty() };
    assert_eq!(row_result(&request, &ok).unwrap(), noul(0.4));
    let wrong_key = ProviderBatchResult { answers: vec![answer("r1", noul(0.4))], metadata: ProviderMetadata::empty() };
    assert_eq!(row_result(&request, &wrong_key).unwrap_err().kind(), ErrorKind::InvalidResponse);
    let out_of_range = ProviderBatchResult { answers: vec![answer("r0", noul(1.5))], metadata: ProviderMetadata::empty() };
    assert!(row_result(&request, &out_of_range).is_err());
    let none = ProviderBatchResult { answers: vec![], metadata: ProviderMetadata::empty() };
    assert!(row_result(&request, &none).is_err());
}

#[test]
fn cache_policy_converts_milliseconds_and_needs_the_cache_enabled() {
    let mut config = RuntimeConfig::from_values("optimized", false, 16, 4096, 4, true, 10, 1000, 60_000).unwrap();
    let policy = cache_policy_for(&config).unwrap();
    assert_eq!(policy.max_entries, 10);
    assert_eq!(policy.max_bytes, 1000);
    assert_eq!(policy.ttl_nanos, 60_000_000_000);
    config.cache_ttl_ms = usize::MAX;
    assert_eq!(cache_policy_for(&config).unwrap().ttl_nanos, u64::MAX, "the TTL saturates");
    config.cache_enabled = false;
    assert!(cache_policy_for(&config).is_none());
    let limits = execution_limits(&config, 7);
    assert_eq!((limits.query_scope, limits.max_inflight, limits.max_request_bytes), (7, 4, 4096));
}

#[test]
fn identity_context_names_the_service_but_no_credential() {
    let context = ProviderContext {
        provider: ProviderKind::Typesafe,
        api_url: "https://example.test/v1".into(),
        model: "jev-latest".into(),
        timeout_ms: 1,
        max_response_bytes: 1,
        credential: Some("secret".into()),
    };
    let identity = identity_context_for(&context, 11, 12);
    assert_eq!(identity.provider_namespace, "typesafe");
    assert_eq!(identity.endpoint, "https://example.test/v1");
    assert_eq!(identity.requested_model, "jev-latest");
    assert_eq!(identity.effective_model, None);
    assert_eq!((identity.credential_scope, identity.model_binding_scope), (11, 12));
}

#[test]
fn capability_checks_name_the_first_failure() {
    let noul_request = JudgmentRequest::noul(encode_text("s"), "q").unwrap();
    let choice_request = JudgmentRequest::choice(encode_text("s"), "q", &["a".into(), "b".into(), "c".into()]).unwrap();
    let caps = capabilities(CapabilityStatus::Verified, None, Some(2));
    assert!(check_row_capabilities(&caps, &noul_request).is_ok());
    assert_eq!(
        check_row_capabilities(&caps, &choice_request).unwrap_err().message(),
        "provider does not verify support for this judgment type"
    );
    let mut verified = caps.clone();
    verified.choice = CapabilityStatus::Verified;
    assert_eq!(
        check_row_capabilities(&verified, &choice_request).unwrap_err().message(),
        "choice count exceeds the verified provider limit"
    );
    assert_eq!(
        check_batch_capability(&caps, &choice_request).unwrap_err().message(),
        "provider capability for this question type is not verified"
    );
    assert!(check_batch_capability(&caps, &noul_request).is_ok());
}

#[test]
fn batch_limit_takes_the_smaller_limit_and_needs_verified_batching() {
    let unverified = capabilities(CapabilityStatus::Unknown, None, None);
    assert_eq!(
        batch_judgment_limit(&unverified, 16, 1000).unwrap_err().message(),
        "provider multi-state batch capability is not verified"
    );
    let open = capabilities(CapabilityStatus::Verified, None, None);
    assert_eq!(batch_judgment_limit(&open, 16, 1000).unwrap(), 16);
    assert_eq!(
        batch_judgment_limit(&open, 0, 1000).unwrap_err().message(),
        "batch judgment and request byte limits must be positive"
    );
    let capped = capabilities(CapabilityStatus::Verified, Some(2), None);
    assert_eq!(batch_judgment_limit(&capped, 16, 1000).unwrap(), 2);
    assert_eq!(batch_judgment_limit(&capped, 1, 1000).unwrap(), 1);
    let zero = capabilities(CapabilityStatus::Verified, Some(0), None);
    assert_eq!(
        batch_judgment_limit(&zero, 16, 1000).unwrap_err().message(),
        "provider advertises a zero judgment batch limit"
    );
}

#[test]
fn query_outcome_and_status_words() {
    assert_eq!(query_outcome(0, 29), QueryOutcome::Succeeded);
    assert_eq!(query_outcome(29, 29), QueryOutcome::Cancelled);
    assert_eq!(query_outcome(32, 29), QueryOutcome::Failed);
    assert_eq!(status(QueryOutcome::Succeeded), "completed");
    assert_eq!(status(QueryOutcome::Failed), "failed");
    assert_eq!(status(QueryOutcome::Cancelled), "cancelled");
}

#[test]
fn millionths_are_the_nearest_binary64() {
    for k in [0u64, 1, 3, 7, 100_000, 333_333, 500_000, 999_999, 1_000_000] {
        assert_eq!(millionths_to_bits(k), (k as f64 / 1_000_000.0).to_bits(), "k = {k}");
    }
    assert_eq!(millionths_to_bits(500_000), 0.5f64.to_bits());
    assert_eq!(millionths_to_bits(1_000_000), 1.0f64.to_bits());
}

#[test]
fn mock_answers_agree_across_entry_points() {
    let mock = MockProvider;
    let request = JudgmentRequest::noul(encode_text("state"), "criterion").unwrap();
    let single = mock.judge(&request).unwrap();
    let with_metadata = mock.judge_with_metadata(&request).unwrap();
    assert_eq!(with_metadata.answers[0].result, single);
    assert_eq!(with_metadata.answers[0].request_key, "r0");
    let second = request.with_key("r1".into());
    let batch = mock.judge_many(&[request.duplicate(), second]).unwrap();
    assert_eq!(batch.answers[0].result, single);
    assert_eq!(batch.answers[1].request_key, "r1");
    assert!(mock.judge_many(&[request.duplicate(), request.duplicate()]).is_err(), "duplicate keys");

    let empty_choice = JudgmentRequest { choices: vec![], ..JudgmentRequest::choice(encode_text("s"), "q", &["a".into(), "b".into()]).unwrap() };
    assert_eq!(mock.judge(&empty_choice).unwrap_err().message(), "choices must contain at least two labels");
}

#[test]
fn provider_context_resolves_endpoints_models_and_credentials() {
    let context = provider_context_from_values(
        Some(" SelfHosted ".into()),
        Some("https://api.typesafe.ai/v1/systemone".into()),
        Some("http://127.0.0.1:9000/v1/systemone".into()),
        None,
        None,
        Some(2048),
        Some("typesafe-key".into()),
        Some("local-key".into()),
    )
    .unwrap();
    assert_eq!(context.provider, ProviderKind::SelfHosted);
    assert_eq!(context.api_url, "http://127.0.0.1:9000/v1/systemone", "the default general endpoint yields");
    assert_eq!(context.model, "nli-deberta-large");
    assert_eq!(context.timeout_ms, 30_000);
    assert_eq!(context.max_response_bytes, 2048);
    assert_eq!(context.credential.as_deref(), Some("local-key"));

    let defaults = provider_context_from_values(None, None, None, Some("jev-1.13.0".into()), Some(5), None, Some("k".into()), None).unwrap();
    assert_eq!(defaults.provider, ProviderKind::Mock);
    assert_eq!(defaults.model, "jev-1.13.0");
    assert_eq!(defaults.credential.as_deref(), Some("k"));

    assert_eq!(
        provider_context_from_values(Some("remote".into()), None, None, None, None, None, None, None).unwrap_err(),
        "unknown duckjeu_provider 'remote': expected 'mock', 'typesafe', or 'selfhosted'"
    );
    assert_eq!(
        provider_context_from_values(None, None, None, None, Some(0), None, None, None).unwrap_err(),
        "duckjeu_timeout_ms must be positive"
    );
    assert_eq!(
        provider_context_from_values(None, None, None, None, None, Some(-1), None, None).unwrap_err(),
        "duckjeu_max_response_bytes must be positive"
    );
}

#[test]
fn credential_precedence_and_blank_values() {
    assert_eq!(credential_choice(Some("a".into()), Some("b".into())).as_deref(), Some("a"));
    assert_eq!(credential_choice(Some("  ".into()), Some("b".into())).as_deref(), Some("b"));
    assert_eq!(credential_choice(None, Some("\t".into())), None);
    assert_eq!(non_blank_credential(Some(" x ".into())).as_deref(), Some(" x "));
    assert_eq!(non_blank_credential(Some(" ".into())), None);
}

#[test]
fn provider_setup_requires_a_typesafe_credential() {
    let mut context = ProviderContext::default();
    assert_eq!(provider_setup(&context).unwrap(), ProviderSetup::Mock);
    context.provider = ProviderKind::Typesafe;
    assert_eq!(
        provider_setup(&context).unwrap_err().message(),
        "duckjeu_provider='typesafe' requires the TYPESAFE_API_KEY environment variable"
    );
    context.credential = Some("key".into());
    assert_eq!(provider_setup(&context).unwrap(), ProviderSetup::Typesafe { credential: "key".into() });
    context.provider = ProviderKind::SelfHosted;
    context.credential = None;
    assert_eq!(provider_setup(&context).unwrap(), ProviderSetup::SelfHosted { credential: None });
}

#[test]
fn connection_cache_is_reachable_directly() {
    let mut runtime = ConnectionRuntime::new(4);
    assert!(runtime.cache_mut().is_empty());
    assert_eq!(runtime.cache_mut().estimated_bytes(), 0);
}

fn answer(key: &str, result: JudgmentResult) -> ProviderAnswer {
    ProviderAnswer { request_key: key.to_string(), result }
}

#[test]
fn batch_results_follow_the_answer_keys_not_their_order() {
    let requests = vec![
        JudgmentRequest::noul(encode_text("low"), "q").unwrap().with_key("r0".to_string()),
        JudgmentRequest::noul(encode_text("high"), "q").unwrap().with_key("r1".to_string()),
    ];
    let reversed = ProviderBatchResult {
        answers: vec![answer("r1", noul(0.8)), answer("r0", noul(0.2))],
        metadata: ProviderMetadata::empty(),
    };
    assert_eq!(batch_results(&requests, &reversed).unwrap(), vec![noul(0.2), noul(0.8)]);

    let missing = ProviderBatchResult {
        answers: vec![answer("r1", noul(0.8))],
        metadata: ProviderMetadata::empty(),
    };
    let error = batch_results(&requests, &missing).unwrap_err();
    assert_eq!(error.kind(), ErrorKind::InvalidResponse);
    assert_eq!(error.message(), "provider batch answer count does not match the request count");

    let unknown = ProviderBatchResult {
        answers: vec![answer("r0", noul(0.2)), answer("r9", noul(0.8))],
        metadata: ProviderMetadata::empty(),
    };
    assert!(batch_results(&requests, &unknown).is_err());
}

