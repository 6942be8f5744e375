use duckjeu::judgment::{ErrorKind, JudgmentRequest, JudgmentResult};
use duckjeu::json::{Json, JsonNumber};
use duckjeu::provider::{CapabilityStatus, ProviderBatchResult};
use duckjeu::serialize::{encode_struct, encode_text, CanonicalState, StructFields, TypedValue};
use duckjeu::typesafe::{LocalJevProvider, TypesafeProvider};

fn provider() -> TypesafeProvider {
    provider_with_model("jev-latest")
}

fn provider_with_model(model: &str) -> TypesafeProvider {
    TypesafeProvider::new(
        "http://127.0.0.1:1/v1/systemone".to_string(),
        model.to_string(),
        1_000,
        1_048_576,
        "test-token".to_string(),
    )
}

fn localjev(credential: Option<String>) -> LocalJevProvider {
    LocalJevProvider::new(
        "http://127.0.0.1:1/v1/systemone".into(),
        "nli-deberta-large".into(),
        1_000,
        1_048_576,
        credential,
    )
}

fn struct_state() -> CanonicalState {
    let fields = StructFields::from_pairs(vec![
        ("price".to_string(), TypedValue::Float(1.5f64.to_bits(), format!("{:?}", 1.5f64))),
        ("load".to_string(), TypedValue::Null),
    ]);
    encode_struct(fields).unwrap()
}

fn to_serde(j: &Json) -> serde_json::Value {
    match j {
        Json::Null => serde_json::Value::Null,
        Json::Bool(b) => serde_json::Value::Bool(*b),
        Json::Number(JsonNumber { bits, unsigned }) => match unsigned {
            Some(u) => serde_json::Value::from(*u),
            None => serde_json::Value::from(f64::from_bits(*bits)),
        },
        Json::Str(s) => serde_json::Value::String(s.clone()),
        Json::Array(items) => serde_json::Value::Array(items.iter().map(to_serde).collect()),
        Json::Object(members) => {
            let mut map = serde_json::Map::new();
            for (k, v) in members {
                map.insert(k.clone(), to_serde(v));
            }
            serde_json::Value::Object(map)
        }
    }
}

fn from_serde(v: &serde_json::Value) -> Json {
    match v {
        serde_json::Value::Null => Json::Null,
        serde_json::Value::Bool(b) => Json::Bool(*b),
        serde_json::Value::Number(n) => Json::Number(JsonNumber {
            bits: n.as_f64().unwrap_or(f64::NAN).to_bits(),
            unsigned: n.as_u64(),
        }),
        serde_json::Value::String(s) => Json::Str(s.clone()),
        serde_json::Value::Array(items) => Json::Array(items.iter().map(from_serde).collect()),
        serde_json::Value::Object(map) => {
            Json::Object(map.iter().map(|(k, v)| (k.clone(), from_serde(v))).collect())
        }
    }
}

/// The response document as the HTTP layer hands it over: `None` when the body is not JSON.
fn document(body: &str) -> Option<Json> {
    serde_json::from_str::<serde_json::Value>(body).ok().map(|v| from_serde(&v))
}

fn parse_single(
    provider: &TypesafeProvider,
    request: &JudgmentRequest,
    body: &str,
) -> Result<JudgmentResult, duckjeu::judgment::JudgmentError> {
    let doc = document(body);
    provider.parse_response(request, doc.as_ref())
}

fn parse_batch(
    provider: &TypesafeProvider,
    requests: &[JudgmentRequest],
    body: &str,
) -> Result<ProviderBatchResult, duckjeu::judgment::JudgmentError> {
    let doc = document(body);
    provider.parse_batch_response(requests, doc.as_ref())
}

fn noul(p: f64) -> JudgmentResult {
    JudgmentResult::Noul(p.to_bits())
}

fn keyed(request: JudgmentRequest, key: &str) -> JudgmentRequest {
    request.with_key(key.to_string())
}

#[test]
fn noul_body_carries_condition_and_question_key() {
    let request = JudgmentRequest::noul(struct_state(), "is demand high?").unwrap();
    let body = to_serde(&provider().build_body(&request));
    assert_eq!(body["model"], "jev-latest");
    assert_eq!(body["state"]["condition"], "is demand high?");
    assert!(body["state"]["rows"].is_array());
    assert_eq!(body["state"]["rows"][0]["t"], "struct");
    assert_eq!(body["questions"]["r0"]["type"], "noul");
}

#[test]
fn text_state_is_sent_as_raw_string() {
    let request =
        JudgmentRequest::noul(encode_text("the ticket asks for a refund"), "refund?").unwrap();
    let body = to_serde(&provider().build_body(&request));
    assert_eq!(
        body["state"]["rows"][0],
        serde_json::Value::String("the ticket asks for a refund".to_string())
    );
}

#[test]
fn choice_body_carries_candidate_map() {
    let request = JudgmentRequest::choice(
        encode_text("state"),
        "which regime?",
        &["normal".to_string(), "scarcity".to_string()],
    )
    .unwrap();
    let body = to_serde(&provider().build_body(&request));
    assert_eq!(body["questions"]["r0"]["type"], "choice");
    assert_eq!(
        body["questions"]["r0"]["instructions"],
        "Caller question: which regime?\nSelect the single candidate label that best answers this question for state.rows[0]."
    );
    let criteria = body["questions"]["r0"]["criteria"].as_object().unwrap();
    assert!(body["state"].get("criteria").is_none());
    assert_eq!(criteria.len(), 2);
    assert!(criteria["normal"].is_null());
    assert!(criteria["scarcity"].is_null());
}

#[test]
fn noul_response_validation() {
    let provider = provider();
    let request = JudgmentRequest::noul(encode_text("s"), "q").unwrap();

    let ok = parse_single(
        &provider,
        &request,
        r#"{"model":"jev-1.13.0","answers":{"r0":{"type":"noul","noul":0.83}}}"#,
    )
    .unwrap();
    assert_eq!(ok, noul(0.83));

    assert!(parse_single(&provider, &request, r#"{"answers":{"r0":{"type":"noul","noul":0}}}"#)
        .is_ok());
    assert!(parse_single(&provider, &request, r#"{"answers":{"r0":{"type":"noul","noul":1}}}"#)
        .is_ok());

    for bad in [
        r#"{"answers":{"r0":{"type":"noul","noul":1.5}}}"#,
        r#"{"answers":{"r0":{"type":"noul","noul":-0.1}}}"#,
        r#"{"answers":{"r0":{"type":"noul","noul":"0.5"}}}"#,
        r#"{"answers":{"r0":{"type":"choice","choice":"normal"}}}"#,
        r#"{"answers":{}}"#,
        r#"{"answers":{"r0":0.5,"r1":0.5}}"#,
        r#"{"answers":{"r9":0.5}}"#,
        r#"{"model":"x"}"#,
        r#"not json"#,
    ] {
        assert!(parse_single(&provider, &request, bad).is_err(), "must reject: {bad}");
    }
}

#[test]
fn choice_response_must_be_candidate_member() {
    let provider = provider();
    let request = JudgmentRequest::choice(
        encode_text("s"),
        "q",
        &["normal".to_string(), "scarcity".to_string()],
    )
    .unwrap();

    let ok = parse_single(
        &provider,
        &request,
        r#"{"answers":{"r0":{"type":"choice","choice":"scarcity","confidence":0.8,"probabilities":{"normal":0.2,"scarcity":0.8}}}}"#,
    )
    .unwrap();
    assert_eq!(ok, JudgmentResult::Choice("scarcity".to_string()));

    for bad in [
        r#"{"answers":{"r0":{"type":"choice","choice":"oversupply"}}}"#,
        r#"{"answers":{"r0":{"type":"noul","noul":0.7}}}"#,
        r#"{"answers":{}}"#,
    ] {
        assert!(parse_single(&provider, &request, bad).is_err(), "must reject: {bad}");
    }
}

#[test]
fn typesafe_preserves_requested_and_reported_model_and_usage() {
    let provider = provider();
    let request = JudgmentRequest::noul(encode_text("s"), "q").unwrap();
    let response = parse_batch(
        &provider,
        std::slice::from_ref(&request),
        r#"{"model":"jev-1.13.0","usage":{"input_tokens":123,"output_tokens":7},"answers":{"r0":{"type":"noul","noul":0.6}}}"#,
    )
    .unwrap();

    assert_eq!(response.answers[0].request_key, "r0");
    assert_eq!(response.answers[0].result, noul(0.6));
    assert_eq!(response.metadata.requested_model.as_deref(), Some("jev-latest"));
    assert_eq!(response.metadata.effective_model.as_deref(), Some("jev-1.13.0"));
    let usage = response.metadata.usage.unwrap();
    assert_eq!(usage.input_tokens, Some(123));
    assert_eq!(usage.output_tokens, Some(7));
    assert_eq!(response.metadata.inference_time_ms, None);
}

#[test]
fn typesafe_multi_state_batch_is_verified_only_for_live_tested_models() {
    let capabilities = provider().capabilities();
    assert_eq!(capabilities.noul, CapabilityStatus::Verified);
    assert_eq!(capabilities.choice, CapabilityStatus::Verified);
    assert_eq!(capabilities.multi_state_batch, CapabilityStatus::Verified);
    assert_eq!(
        provider_with_model("jev-1.13.0").capabilities().multi_state_batch,
        CapabilityStatus::Verified
    );
    assert_eq!(
        provider_with_model("unverified-model").capabilities().multi_state_batch,
        CapabilityStatus::Unknown
    );
    assert_eq!(
        provider().cache_model_identity("jev-latest"),
        None,
        "a mutable alias is not a cross-query cache identity"
    );
    assert_eq!(
        provider().cache_model_identity("jev-1.13.0"),
        Some("jev-1.13.0".to_string()),
        "only explicit versioned model identifiers are cacheable"
    );
    assert_eq!(provider().cache_model_identity("custom-alias"), None);
}

#[test]
fn typesafe_builds_choice_composite_rows_with_per_row_questions() {
    let provider = provider();
    let choices = vec!["bird".to_string(), "shark".to_string()];
    let first = keyed(
        JudgmentRequest::choice(encode_text("bird"), "which animal?", &choices).unwrap(),
        "r0",
    );
    let second = keyed(
        JudgmentRequest::choice(encode_text("shark"), "which animal?", &choices).unwrap(),
        "r1",
    );

    let body = to_serde(&provider.build_batch_body(&[first, second]).unwrap());
    assert_eq!(
        body["state"]["rows"],
        serde_json::Value::Array(vec!["bird".into(), "shark".into()])
    );
    assert_eq!(body["questions"].as_object().unwrap().len(), 2);
    assert!(body["questions"]["r0"]["instructions"].as_str().unwrap().contains("state.rows[0]"));
    assert!(body["questions"]["r1"]["instructions"].as_str().unwrap().contains("state.rows[1]"));
    for key in ["r0", "r1"] {
        assert_eq!(body["questions"][key]["type"], "choice");
        let criteria = body["questions"][key]["criteria"].as_object().unwrap();
        assert_eq!(criteria.len(), 2);
        assert!(criteria["bird"].is_null());
        assert!(criteria["shark"].is_null());
    }
}

#[test]
fn typesafe_rejects_incompatible_or_duplicate_batch_questions_before_dispatch() {
    let provider = provider();
    let first = keyed(JudgmentRequest::noul(encode_text("paid"), "invoice is paid").unwrap(), "r0");
    let different_criterion = keyed(
        JudgmentRequest::noul(encode_text("unpaid"), "invoice is overdue").unwrap(),
        "r1",
    );
    assert!(provider.build_batch_body(&[first.duplicate(), different_criterion]).is_err());

    let duplicate_key = JudgmentRequest {
        request_key: first.request_key.clone(),
        state: encode_text("unpaid"),
        ..first.duplicate()
    };
    assert!(provider.build_batch_body(&[first, duplicate_key]).is_err());
}

#[test]
fn typesafe_posts_composite_noul_as_one_request_and_maps_reversed_answers() {
    let first = keyed(
        JudgmentRequest::noul(encode_text("invoice paid"), "invoice is unpaid").unwrap(),
        "r0",
    );
    let second = keyed(
        JudgmentRequest::noul(encode_text("invoice unpaid"), "invoice is unpaid").unwrap(),
        "r1",
    );
    let provider = provider_with_model("jev-1.13.0");
    let requests = [first, second];
    assert!(provider.check_multi_state().is_ok());
    let body = to_serde(&provider.build_batch_body(&requests).unwrap());
    assert_eq!(
        body["state"]["rows"],
        serde_json::Value::Array(vec!["invoice paid".into(), "invoice unpaid".into()])
    );
    assert_eq!(body["state"]["condition"], "invoice is unpaid");
    assert_eq!(body["questions"].as_object().unwrap().len(), 2);
    assert!(body["questions"]["r0"]["instructions"].as_str().unwrap().contains("state.rows[0]"));
    assert!(body["questions"]["r1"]["instructions"].as_str().unwrap().contains("state.rows[1]"));

    let reply = r#"{"model":"jev-1.13.0","usage":{"input_tokens":100,"output_tokens":10},"answers":{"r1":{"type":"noul","noul":0.98},"r0":{"type":"noul","noul":0.01}}}"#;
    let parsed = parse_batch(&provider, &requests, reply).unwrap();
    let response = provider.finish_response(requests.len(), parsed, 5, 7).unwrap();
    assert_eq!(response.answers.len(), 2);
    assert_eq!(response.answers[0].request_key, "r0");
    assert_eq!(response.answers[0].result, noul(0.01));
    assert_eq!(response.answers[1].request_key, "r1");
    assert_eq!(response.answers[1].result, noul(0.98));
    assert_eq!(response.metadata.effective_model.as_deref(), Some("jev-1.13.0"));
    assert_eq!(response.metadata.usage.unwrap().input_tokens, Some(100));
    assert_eq!(response.metadata.serialization_time_ns, Some(5));
    assert_eq!(response.metadata.external_roundtrip_ns, Some(7));
}

#[test]
fn typesafe_rejects_batch_if_the_live_reported_model_has_changed() {
    let first =
        keyed(JudgmentRequest::noul(encode_text("invoice paid"), "invoice unpaid").unwrap(), "r0");
    let second = keyed(
        JudgmentRequest::noul(encode_text("invoice unpaid"), "invoice unpaid").unwrap(),
        "r1",
    );
    let provider = provider_with_model("jev-1.13.0");
    let requests = [first, second];
    let reply = r#"{"model":"jev-1.14.0","answers":{"r0":{"type":"noul","noul":0.1},"r1":{"type":"noul","noul":0.9}}}"#;
    let parsed = parse_batch(&provider, &requests, reply).unwrap();
    let error = provider.finish_response(requests.len(), parsed, 1, 1).unwrap_err();
    assert_eq!(error.kind(), ErrorKind::Provider);
    assert_eq!(error.message(), "provider model does not match the verified multi-state batch model");
}

#[test]
fn typesafe_composite_answers_are_associated_by_key_not_response_order() {
    let provider = provider();
    let first =
        keyed(JudgmentRequest::noul(encode_text("paid"), "invoice is paid").unwrap(), "row_a");
    let second = keyed(
        JudgmentRequest::choice(
            encode_text("animal is a shark"),
            "which animal?",
            &["bird".into(), "shark".into()],
        )
        .unwrap(),
        "row_b",
    );

    let requests = [first.duplicate(), second.duplicate()];
    let parsed = parse_batch(
        &provider,
        &requests,
        r#"{"model":"jev-1.13.0","answers":{"row_b":{"type":"choice","choice":"shark"},"row_a":{"type":"noul","noul":0.91}}}"#,
    )
    .unwrap();
    assert_eq!(parsed.answers.len(), 2);
    assert_eq!(parsed.answers[0].request_key, "row_a");
    assert_eq!(parsed.answers[0].result, noul(0.91));
    assert_eq!(parsed.answers[1].request_key, "row_b");
    assert_eq!(parsed.answers[1].result, JudgmentResult::Choice("shark".into()));

    for invalid in [
        r#"{"answers":{"row_a":{"type":"noul","noul":0.5}}}"#,
        r#"{"answers":{"row_a":{"type":"noul","noul":0.5},"row_b":{"type":"choice","choice":"shark"},"extra":{"type":"noul","noul":0.5}}}"#,
        r#"{"answers":{"row_a":{"type":"noul","noul":1.5},"row_b":{"type":"choice","choice":"shark"}}}"#,
        r#"{"answers":{"row_a":{"type":"choice","choice":"bird"},"row_b":{"type":"choice","choice":"shark"}}}"#,
        r#"{"answers":{"row_a":{"type":"noul","noul":0.5},"row_b":{"type":"choice","choice":"whale"}}}"#,
    ] {
        assert!(
            parse_batch(&provider, &requests, invalid).is_err(),
            "must reject malformed composite response: {invalid}"
        );
    }
}

#[test]
fn localjev_declares_unverified_cross_state_batch_unsupported_and_disables_cache() {
    let provider = localjev(None);
    let capabilities = provider.capabilities();
    assert_eq!(capabilities.multi_state_batch, CapabilityStatus::Unsupported);
    assert_eq!(capabilities.max_choices, Some(255));
    assert_eq!(capabilities.protocol_version, "local-jev/64a0b31");
    assert_eq!(provider.cache_model_identity("jev-1.13.0"), None);
}

#[test]
fn localjev_rejects_choice_over_255_before_network_request() {
    let provider = localjev(None);
    let choices = (0..256).map(|index| format!("choice-{index}")).collect::<Vec<_>>();
    let request = JudgmentRequest::choice(encode_text("synthetic"), "choose", &choices).unwrap();
    let error = provider.0.check_request_capabilities(&request).unwrap_err();
    assert!(error.message().contains("verified provider limit"));

    let within = JudgmentRequest::choice(encode_text("synthetic"), "choose", &choices[..255]).unwrap();
    assert!(provider.0.check_request_capabilities(&within).is_ok());
}

#[test]
fn localjev_uses_its_separate_optional_bearer_credential() {
    let provider = localjev(Some("private-local-token".into()));
    assert_eq!(provider.0.credential.as_deref(), Some("private-local-token"));
    assert_eq!(localjev(None).0.credential, None);
    let request = JudgmentRequest::noul(encode_text("synthetic"), "criterion").unwrap();
    let result = parse_single(
        &provider.0,
        &request,
        r#"{"model":"nli-deberta-large","answers":{"r0":{"type":"noul","noul":0.7}}}"#,
    );
    assert_eq!(result.unwrap(), noul(0.7));
}

#[test]
fn localjev_truncation_header_is_rejected_without_returning_partial_result() {
    let provider = localjev(None);
    let error = provider.0.reply_head_error(200, Some("true")).unwrap();
    assert!(
        error.message().contains("truncated the state"),
        "unexpected local-jev error: {}",
        error.message()
    );
    assert!(provider.0.truncation_error(Some("TRUE")).is_some());
    assert!(provider.0.truncation_error(Some("false")).is_none());
    assert!(provider.0.truncation_error(None).is_none());
    assert_eq!(
        provider.0.reply_head_error(500, Some("true")).unwrap().message(),
        "provider returned HTTP 500",
        "the status is reported before the truncation flag"
    );
    assert!(self::provider().truncation_error(Some("true")).is_none());
}

#[test]
fn http_status_outside_success_range_is_reported_with_auth_hint() {
    let hosted = provider();
    assert!(hosted.status_error(200).is_none());
    assert!(hosted.status_error(299).is_none());
    let unauthorized = hosted.status_error(401).unwrap();
    assert_eq!(unauthorized.kind(), ErrorKind::Provider);
    assert_eq!(
        unauthorized.message(),
        "provider returned HTTP 401 (check DUCKJEU_API_KEY or TYPESAFE_API_KEY)."
    );
    assert_eq!(hosted.status_error(500).unwrap().message(), "provider returned HTTP 500");
    assert_eq!(
        localjev(None).0.status_error(403).unwrap().message(),
        "provider returned HTTP 403 (check DUCKJEU_LOCAL_JEV_API_KEY)."
    );
}

#[test]
fn single_judgment_keeps_its_model_without_batch_pinning() {
    let provider = provider();
    let request = JudgmentRequest::noul(encode_text("s"), "q").unwrap();
    let parsed = parse_batch(
        &provider,
        std::slice::from_ref(&request),
        r#"{"model":"jev-9.9","answers":{"r0":{"type":"noul","noul":0.25}}}"#,
    )
    .unwrap();
    let done = provider.finish_response(1, parsed, 11, 13).unwrap();
    assert_eq!(done.answers[0].result, noul(0.25));
    assert_eq!(done.metadata.effective_model.as_deref(), Some("jev-9.9"));
    assert_eq!(done.metadata.serialization_time_ns, Some(11));
    assert_eq!(done.metadata.external_roundtrip_ns, Some(13));
}

#[test]
fn multi_state_request_needs_verified_batch_support() {
    assert!(provider().check_multi_state().is_ok());
    assert_eq!(
        provider_with_model("custom").check_multi_state().unwrap_err().message(),
        "provider multi-state batch capability is not verified"
    );
    assert_eq!(
        localjev(None).0.check_multi_state().unwrap_err().message(),
        "provider does not support cross-state batch requests"
    );
}

#[test]
fn request_preparation_checks_before_building_the_document() {
    let hosted = provider();
    let single = JudgmentRequest::noul(encode_text("s"), "q").unwrap();
    let body = to_serde(&hosted.prepare_request(std::slice::from_ref(&single)).unwrap());
    assert_eq!(body, to_serde(&hosted.build_body(&single)));

    let choices = (0..300).map(|index| format!("label-{index}")).collect::<Vec<_>>();
    let wide = JudgmentRequest::choice(encode_text("s"), "which?", &choices).unwrap();
    assert!(hosted.prepare_request(std::slice::from_ref(&wide)).is_ok());
    assert_eq!(
        localjev(None).0.prepare_request(std::slice::from_ref(&wide)).unwrap_err().message(),
        "choice count exceeds the verified provider limit"
    );

    let pair = [
        keyed(JudgmentRequest::noul(encode_text("a"), "q").unwrap(), "r0"),
        keyed(JudgmentRequest::noul(encode_text("b"), "q").unwrap(), "r1"),
    ];
    let batch = to_serde(&hosted.prepare_request(&pair).unwrap());
    assert_eq!(batch["questions"].as_object().unwrap().len(), 2);
    assert_eq!(
        provider_with_model("pinned-elsewhere").prepare_request(&pair).unwrap_err().message(),
        "provider multi-state batch capability is not verified"
    );
    assert_eq!(
        localjev(None).0.prepare_request(&pair).unwrap_err().message(),
        "provider does not support cross-state batch requests"
    );
}
