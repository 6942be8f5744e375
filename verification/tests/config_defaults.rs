use duckjeu::config::{effective_model, ExecutionMode, RuntimeConfig};
use duckjeu::provider::{ProviderKind, DEFAULT_LOCAL_JEV_MODEL, DEFAULT_MODEL};

#[test]
fn provider_default_model_resolves_to_service_specific_identity() {
    assert_eq!(effective_model(ProviderKind::Typesafe, None), DEFAULT_MODEL);
    assert_eq!(effective_model(ProviderKind::SelfHosted, None), DEFAULT_LOCAL_JEV_MODEL);
    assert_eq!(effective_model(ProviderKind::SelfHosted, Some(DEFAULT_MODEL.to_string())), DEFAULT_MODEL);
    assert_eq!(
        effective_model(ProviderKind::SelfHosted, Some("custom-local-model".to_string())),
        "custom-local-model"
    );
}

#[test]
fn row_defaults_and_optimized_limits_are_frozen() {
    let defaults =
        RuntimeConfig::from_values("row", false, 16, 262_144, 4, false, 10_000, 67_108_864, 60_000).unwrap();
    assert_eq!(defaults.mode, ExecutionMode::Row);
    assert_eq!(defaults.max_inflight, 4);
    assert!(!defaults.cache_enabled);

    let optimized =
        RuntimeConfig::from_values("optimized", true, 8, 4096, 2, true, 100, 10_000, 5_000).unwrap();
    assert_eq!(optimized.mode, ExecutionMode::Optimized);
    assert!(optimized.batch_enabled);
    assert!(optimized.cache_enabled);
    assert_eq!(optimized.batch_max_judgments, 8);
    assert_eq!(optimized.max_request_bytes, 4096);
    assert_eq!(optimized.max_inflight, 2);
    assert_eq!(optimized.cache_max_entries, 100);
    assert_eq!(optimized.cache_max_bytes, 10_000);
    assert_eq!(optimized.cache_ttl_ms, 5_000);
}

#[test]
fn invalid_execution_settings_fail_before_dispatch() {
    let defaults = (false, 10_000, 67_108_864, 60_000);
    assert!(RuntimeConfig::from_values("unknown", false, 16, 1, 1, defaults.0, defaults.1, defaults.2, defaults.3)
        .is_err());
    assert!(RuntimeConfig::from_values("row", true, 16, 1, 1, defaults.0, defaults.1, defaults.2, defaults.3)
        .is_err());
    assert!(RuntimeConfig::from_values("row", false, 16, 1, 1, true, defaults.1, defaults.2, defaults.3).is_err());
    assert!(RuntimeConfig::from_values("optimized", false, 0, 1, 1, defaults.0, defaults.1, defaults.2, defaults.3)
        .is_err());
    assert!(RuntimeConfig::from_values("optimized", false, 1, 0, 1, defaults.0, defaults.1, defaults.2, defaults.3)
        .is_err());
    assert!(RuntimeConfig::from_values("optimized", false, 1, 1, -1, defaults.0, defaults.1, defaults.2, defaults.3)
        .is_err());
    assert!(RuntimeConfig::from_values("optimized", false, 1, 1, 1, defaults.0, 0, defaults.2, defaults.3).is_err());
    assert!(RuntimeConfig::from_values("optimized", false, 1, 1, 1, defaults.0, defaults.1, 0, defaults.3).is_err());
    assert!(RuntimeConfig::from_values("optimized", false, 1, 1, 1, defaults.0, defaults.1, defaults.2, 0).is_err());
}

#[test]
fn first_rejected_setting_names_its_option() {
    let error = RuntimeConfig::from_values("optimized", false, 1, 1, 0, false, 0, 1, 1).unwrap_err();
    assert_eq!(error, "duckjeu_max_inflight must be a positive integer");
    let error = RuntimeConfig::from_values("fast", true, 0, 0, 0, true, 0, 0, 0).unwrap_err();
    assert_eq!(error, "duckjeu_execution_mode must be 'row' or 'optimized'");
    let error = RuntimeConfig::from_values("row", false, 1, 1, 1, true, 1, 1, 1).unwrap_err();
    assert_eq!(error, "duckjeu_cache_enabled requires duckjeu_execution_mode='optimized'");
}
