use duckjeu::metrics::{profile_facts, ProfileFacts, ProfileReport, QueryCounts};

fn facts(counts: QueryCounts, provider: &str, detailed_timing: bool) -> ProfileFacts {
    profile_facts(&ProfileReport {
        status: "completed".to_string(),
        provider: Some(provider.to_string()),
        requested_model: Some("jev-1.13.0".to_string()),
        counts,
        elapsed_ns: 10_000_000,
        detailed_timing,
    })
}

#[test]
fn unknown_inference_and_network_split_remain_null() {
    let counts = QueryCounts {
        external_requests: 1,
        usage_response_count: 1,
        input_tokens: Some(1_000),
        output_tokens: Some(0),
        usage_missing_count: 0,
        external_roundtrip_ns: 25_000_000,
        external_roundtrip_count: 1,
        ..QueryCounts::default()
    };
    let value = facts(counts, "typesafe", true);
    assert!(value.roundtrip_observed);
    assert!(!value.inference_complete);
    assert_eq!(value.usage_input, Some(1_000));
}

#[test]
fn parallel_request_time_is_not_clamped_to_query_wall_time() {
    let counts = QueryCounts {
        external_requests: 2,
        external_roundtrip_ns: 30_000_000,
        external_roundtrip_count: 2,
        serialization_time_ns: 4_000_000,
        serialization_observed_count: 2,
        ..QueryCounts::default()
    };
    let value = facts(counts, "typesafe", true);
    // Both sums exceed the 10 ms wall time and are still reported as observed.
    assert!(value.roundtrip_observed);
    assert!(value.serialization_observed);
}

#[test]
fn incomplete_or_failed_usage_keeps_estimated_cost_unknown() {
    let counts = QueryCounts {
        external_requests: 1,
        failed_requests: 1,
        usage_missing_count: 1,
        ..QueryCounts::default()
    };
    let value = facts(counts, "typesafe", true);
    assert_eq!(value.cost_unknown_reason, "failed_requests_may_be_billable");
    assert_eq!(value.usage_input, None);

    let incomplete = QueryCounts {
        external_requests: 2,
        usage_response_count: 1,
        input_tokens: Some(5),
        output_tokens: Some(1),
        ..QueryCounts::default()
    };
    let value = facts(incomplete, "typesafe", true);
    assert_eq!(value.cost_unknown_reason, "provider_usage_unavailable_or_incomplete");
    assert_eq!(value.usage_input, None);
    assert_eq!(value.usage_output, None);
}

#[test]
fn typesafe_cost_uses_reported_input_tokens_and_documented_rate() {
    let counts = QueryCounts {
        external_requests: 1,
        usage_response_count: 1,
        usage_missing_count: 0,
        input_tokens: Some(1_000_000),
        output_tokens: Some(10),
        reported_models: vec!["jev-1.13.0".to_string()],
        ..QueryCounts::default()
    };
    let value = facts(counts, "typesafe", true);
    assert!(value.typesafe_priced);
    assert_eq!(value.cost_unknown_reason, "");
    assert_eq!(value.usage_input, Some(1_000_000));
    assert_eq!(value.usage_output, Some(10));
}

#[test]
fn non_typesafe_provider_does_not_inherit_remote_pricing() {
    let counts = QueryCounts { external_requests: 1, ..QueryCounts::default() };
    let value = facts(counts, "selfhosted", true);
    assert!(!value.typesafe_priced);
    assert_eq!(value.cost_unknown_reason, "provider_pricing_not_applicable_or_unverified");
}

#[test]
fn profile_contains_only_approved_aggregates() {
    let counts = QueryCounts {
        input_rows: 5,
        valid_rows: 5,
        unique_judgments: 2,
        deduplicated_rows: 3,
        ..QueryCounts::default()
    };
    let value = facts(counts, "typesafe", false);
    assert!(!value.serialization_observed);
    assert!(!value.roundtrip_observed);
    assert_eq!(value.cost_unknown_reason, "no_external_requests");
}

#[test]
fn timing_sums_need_detailed_timing_and_one_observation_per_request() {
    let counts = QueryCounts {
        external_requests: 2,
        external_roundtrip_count: 1,
        serialization_observed_count: 2,
        inference_observed_count: 2,
        ..QueryCounts::default()
    };
    let value = facts(counts.clone(), "typesafe", true);
    assert!(!value.roundtrip_observed);
    assert!(value.serialization_observed);
    assert!(value.inference_complete);
    assert!(!facts(counts, "typesafe", false).serialization_observed);
}
