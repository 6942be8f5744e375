use std::cell::{Cell, RefCell};
use std::collections::HashMap;
use std::rc::Rc;

use duckjeu::cache::CachePolicy;
use duckjeu::executor::{
    execute_batch_groups, execute_groups, group_by_identity, ExecutionLimits, JudgmentGroup,
    JudgmentWork, RowTarget,
};
use duckjeu::config::RuntimeConfig;
use duckjeu::functions::{evaluate_row_request, judge_row, run_chunk};
use duckjeu::judgment::ErrorKind;
use duckjeu::mock::MockProvider;
use duckjeu::host::ConnectionRuntime;
use duckjeu::judgment::{
    JudgmentError, JudgmentIdentity, JudgmentIdentityContext, JudgmentRequest, JudgmentResult,
    QuestionKind,
};
use duckjeu::metrics::QueryCounts;
use duckjeu::provider::{
    CapabilityStatus, ProviderContext, Provider, ProviderAnswer, ProviderBatchResult, ProviderCapabilities,
    ProviderMetadata, ProviderUsage,
};
use duckjeu::runtime::ExecutionRuntime;
use duckjeu::serialize::encode_text;

type Slot = Rc<RefCell<Option<Result<JudgmentResult, JudgmentError>>>>;

/// A single-threaded host: the connection state behind a `RefCell`, one shared slot per
/// claimed judgment, a request-slot counter and a manual clock.
struct TestRuntime {
    state: RefCell<ConnectionRuntime>,
    slots: RefCell<Vec<Slot>>,
    active: Rc<Cell<usize>>,
    peak: Cell<usize>,
    clock: Cell<u64>,
}

struct TestPermit(Rc<Cell<usize>>);

impl Drop for TestPermit {
    fn drop(&mut self) {
        self.0.set(self.0.get() - 1);
    }
}

impl TestRuntime {
    fn begin() -> (TestRuntime, u64) {
        let mut state = ConnectionRuntime::new(1);
        state.begin_query(0);
        let scope = state.identity_scopes().1;
        let runtime = TestRuntime {
            state: RefCell::new(state),
            slots: RefCell::new(Vec::new()),
            active: Rc::new(Cell::new(0)),
            peak: Cell::new(0),
            clock: Cell::new(1_000),
        };
        (runtime, scope)
    }

    fn end(&self, error_type: u32) -> QueryCounts {
        let mut state = self.state.borrow_mut();
        state.end_query(error_type, 29, self.clock.get());
        self.slots.borrow_mut().clear();
        state.last_query().unwrap().counts.clone()
    }
}

impl ExecutionRuntime for TestRuntime {
    type Entry = Slot;
    type Cancellation = ();
    type Permit = TestPermit;

    fn claim_query_entry(
        &self,
        query_scope: u64,
        identity: &JudgmentIdentity,
    ) -> Result<(Slot, bool), JudgmentError> {
        let (index, owner) = self.state.borrow_mut().claim_query_entry(query_scope, identity)?;
        let mut slots = self.slots.borrow_mut();
        if owner {
            slots.push(Rc::new(RefCell::new(None)));
        }
        Ok((Rc::clone(&slots[index]), owner))
    }

    fn query_cancellation(&self, query_scope: u64) -> Result<(), JudgmentError> {
        if self.state.borrow().identity_scopes().1 == query_scope
            && self.state.borrow().active.is_some()
        {
            Ok(())
        } else {
            Err(JudgmentError::provider("query execution is no longer active"))
        }
    }

    fn complete_entry(&self, entry: &Slot, result: Result<JudgmentResult, JudgmentError>) {
        let mut slot = entry.borrow_mut();
        if slot.is_none() {
            *slot = Some(result);
        }
    }

    fn wait_entry(&self, entry: &Slot, _cancelled: &()) -> Result<JudgmentResult, JudgmentError> {
        match &*entry.borrow() {
            Some(outcome) => outcome.clone(),
            None => Err(JudgmentError::provider("query was cancelled")),
        }
    }

    fn record_chunk_rows(&self, query_scope: u64, null_rows: usize, valid_rows: usize, unique_judgments: usize) {
        self.state.borrow_mut().record_optimized_rows(query_scope, 0, null_rows, valid_rows, unique_judgments);
    }

    fn record_cache_hit(&self, query_scope: u64) {
        self.state.borrow_mut().record_cache_hit(query_scope);
    }

    fn record_provider_attempt(&self, query_scope: u64, batch_size: usize, external: bool) {
        self.state.borrow_mut().record_provider_attempt(query_scope, batch_size, external);
    }

    fn record_failed_request(&self, query_scope: u64) {
        self.state.borrow_mut().record_failed_request(query_scope);
    }

    fn record_provider_response(
        &self,
        query_scope: u64,
        metadata: &ProviderMetadata,
        elapsed_ns: u64,
        external: bool,
    ) {
        self.state.borrow_mut().record_provider_response(query_scope, metadata, elapsed_ns, external);
    }

    fn record_provider_failure(&self, query_scope: u64, elapsed_ns: u64, external: bool) {
        self.state.borrow_mut().record_provider_failure(query_scope, elapsed_ns, external);
    }

    fn cache_lookup(
        &self,
        identity: Option<&JudgmentIdentity>,
        now: u64,
        policy: &CachePolicy,
    ) -> Option<JudgmentResult> {
        self.state.borrow_mut().cache_lookup(identity, now, policy)
    }

    fn cache_insert(
        &self,
        identity: JudgmentIdentity,
        result: JudgmentResult,
        now: u64,
        policy: &CachePolicy,
    ) {
        self.state.borrow_mut().cache_insert(identity, result, now, policy);
    }

    fn acquire_permit(&self, _query_scope: u64, max_inflight: usize) -> Result<TestPermit, JudgmentError> {
        if max_inflight == 0 {
            return Err(JudgmentError::configuration("duckjeu_max_inflight must be positive"));
        }
        if self.active.get() >= max_inflight {
            return Err(JudgmentError::provider("no request slot is free"));
        }
        self.active.set(self.active.get() + 1);
        self.peak.set(self.peak.get().max(self.active.get()));
        Ok(TestPermit(Rc::clone(&self.active)))
    }

    fn now_ns(&self) -> u64 {
        let now = self.clock.get();
        self.clock.set(now + 10);
        now
    }
}

fn noul(p: f64) -> JudgmentResult {
    JudgmentResult::Noul(p.to_bits())
}

#[derive(Default)]
struct RecordingBatchProvider {
    calls: RefCell<Vec<Vec<String>>>,
}

impl Provider for RecordingBatchProvider {
    fn capabilities(&self) -> ProviderCapabilities {
        ProviderCapabilities {
            protocol_version: "test-batch/1".into(),
            noul: CapabilityStatus::Verified,
            choice: CapabilityStatus::Verified,
            multi_state_batch: CapabilityStatus::Verified,
            max_batch_judgments: Some(2),
            max_choices: None,
        }
    }

    fn judge(&self, request: &JudgmentRequest) -> Result<JudgmentResult, JudgmentError> {
        Ok(match request.kind {
            QuestionKind::Noul => {
                if request.state.as_text() == Some("low") {
                    noul(0.2)
                } else {
                    noul(0.8)
                }
            }
            QuestionKind::Choice => JudgmentResult::Choice(request.choices[0].clone()),
        })
    }

    fn estimate_request_bytes(&self, requests: &[JudgmentRequest]) -> usize {
        requests.len() * 1_000
    }

    fn judge_many(&self, requests: &[JudgmentRequest]) -> Result<ProviderBatchResult, JudgmentError> {
        self.calls
            .borrow_mut()
            .push(requests.iter().map(|request| request.request_key.clone()).collect());
        let mut answers = requests
            .iter()
            .map(|request| {
                Ok(ProviderAnswer {
                    request_key: request.request_key.clone(),
                    result: self.judge(request)?,
                })
            })
            .collect::<Result<Vec<_>, JudgmentError>>()?;
        answers.reverse();
        Ok(ProviderBatchResult { answers, metadata: ProviderMetadata::empty() })
    }
}

#[derive(Clone, Copy)]
enum ReplyMode {
    Valid,
    Missing,
    Fails,
}

/// An external batch service that answers in reverse order, drops an answer, or fails.
struct ScriptedBatchService {
    mode: ReplyMode,
    attempts: Cell<usize>,
}

impl Provider for ScriptedBatchService {
    fn capabilities(&self) -> ProviderCapabilities {
        ProviderCapabilities {
            protocol_version: "scripted-test/v1".into(),
            noul: CapabilityStatus::Verified,
            choice: CapabilityStatus::Verified,
            multi_state_batch: CapabilityStatus::Verified,
            max_batch_judgments: Some(2),
            max_choices: Some(255),
        }
    }

    fn makes_external_request(&self) -> bool {
        true
    }

    fn judge(&self, _request: &JudgmentRequest) -> Result<JudgmentResult, JudgmentError> {
        Err(JudgmentError::configuration("single request path not used"))
    }

    fn judge_many(&self, requests: &[JudgmentRequest]) -> Result<ProviderBatchResult, JudgmentError> {
        self.attempts.set(self.attempts.get() + 1);
        if matches!(self.mode, ReplyMode::Fails) {
            return Err(JudgmentError::provider("provider request failed: timeout"));
        }
        let mut answers = Vec::new();
        for request in requests.iter().rev() {
            let value = if request.state.as_text() == Some("low") { 0.2 } else { 0.8 };
            answers.push(ProviderAnswer {
                request_key: request.request_key.clone(),
                result: noul(value),
            });
        }
        if matches!(self.mode, ReplyMode::Missing) {
            answers.pop();
        }
        Ok(ProviderBatchResult {
            answers,
            metadata: ProviderMetadata {
                requested_model: Some("test-fixed".into()),
                effective_model: Some("stub-fixed".into()),
                usage: Some(ProviderUsage { input_tokens: Some(2), output_tokens: Some(0) }),
                inference_time_ms: None,
                serialization_time_ns: None,
                external_roundtrip_ns: None,
            },
        })
    }
}

/// A single-judgment provider that counts its calls and can be scripted to fail.
#[derive(Default)]
struct CountingProvider {
    calls: Cell<usize>,
    fail: bool,
}

impl Provider for CountingProvider {
    fn capabilities(&self) -> ProviderCapabilities {
        ProviderCapabilities {
            protocol_version: "concurrent-test/1".into(),
            noul: CapabilityStatus::Verified,
            choice: CapabilityStatus::Verified,
            multi_state_batch: CapabilityStatus::Unsupported,
            max_batch_judgments: None,
            max_choices: None,
        }
    }

    fn judge(&self, _request: &JudgmentRequest) -> Result<JudgmentResult, JudgmentError> {
        self.calls.set(self.calls.get() + 1);
        if self.fail {
            Err(JudgmentError::provider("scripted provider failure"))
        } else {
            Ok(noul(0.5))
        }
    }
}

fn item(state: &str, criterion: &str, row: usize) -> JudgmentWork {
    let request = JudgmentRequest::noul(encode_text(state), criterion).unwrap();
    let identity = JudgmentIdentity::new(
        &request,
        JudgmentIdentityContext {
            provider_namespace: "test".into(),
            endpoint: "local".into(),
            requested_model: "fixed".into(),
            effective_model: None,
            credential_scope: 1,
            model_binding_scope: 1,
        },
    );
    JudgmentWork { identity, request, target: RowTarget { function_invocation: 1, data_chunk: 1, row } }
}

fn limits(query_scope: u64, max_inflight: usize, max_request_bytes: usize) -> ExecutionLimits {
    ExecutionLimits { query_scope, max_inflight, max_request_bytes }
}

fn by_row(output: Vec<(RowTarget, JudgmentResult)>) -> HashMap<usize, JudgmentResult> {
    output.into_iter().map(|(target, result)| (target.row, result)).collect()
}

fn three_rows() -> Vec<JudgmentGroup> {
    group_by_identity(vec![
        item("low", "is it low?", 0),
        item("high", "is it low?", 1),
        item("low", "is it low?", 2),
    ])
}

#[test]
fn batch_executor_deduplicates_maps_reordered_answers_and_splits_limits() {
    let groups = three_rows();
    assert_eq!(groups.len(), 2);
    assert_eq!(groups[0].targets.len(), 2);

    for (max_judgments, max_bytes, expected_calls) in [(16, 10_000, 1), (1, 10_000, 2), (16, 1_500, 2)] {
        let (runtime, query_scope) = TestRuntime::begin();
        let provider = RecordingBatchProvider::default();
        let output = execute_batch_groups(
            &groups,
            &provider,
            &runtime,
            max_judgments,
            limits(query_scope, 4, max_bytes),
            None,
        ).0
        .unwrap();
        assert_eq!(provider.calls.borrow().len(), expected_calls);
        assert_eq!(output.len(), 3);
        let rows = by_row(output);
        assert_eq!(rows[&0], noul(0.2));
        assert_eq!(rows[&1], noul(0.8));
        assert_eq!(rows[&2], noul(0.2));
    }
}

#[test]
fn batch_executor_respects_provider_limit_and_separates_question_contexts() {
    let groups = group_by_identity(vec![
        item("low", "question A", 0),
        item("high", "question A", 1),
        item("middle", "question A", 2),
        item("other", "question B", 3),
    ]);
    let (runtime, query_scope) = TestRuntime::begin();
    let provider = RecordingBatchProvider::default();
    let output = execute_batch_groups(
        &groups,
        &provider,
        &runtime,
        16,
        limits(query_scope, 4, 10_000),
        None,
    ).0
    .unwrap();

    let calls = provider.calls.borrow();
    assert_eq!(calls.len(), 3, "provider cap splits A while question B stays separate");
    assert!(calls.iter().all(|keys| keys.len() <= 2));
    assert_eq!(output.len(), 4);
}

#[test]
fn controlled_http_batch_uses_one_roundtrip_for_two_judgments_and_splits_over_limit() {
    let provider = ScriptedBatchService { mode: ReplyMode::Valid, attempts: Cell::new(0) };
    let groups = group_by_identity(vec![
        item("low", "same criterion", 0),
        item("high", "same criterion", 1),
        item("middle", "same criterion", 2),
        item("other", "same criterion", 3),
    ]);
    let (runtime, query_scope) = TestRuntime::begin();
    runtime.state.borrow_mut().record_optimized_rows(query_scope, 4, 0, 4, 4);
    let output = execute_batch_groups(
        &groups,
        &provider,
        &runtime,
        16,
        limits(query_scope, 2, 1_000_000),
        None,
    ).0
    .unwrap();
    assert_eq!(provider.attempts.get(), 2);
    assert_eq!(output.len(), 4);
    let rows = by_row(output);
    assert_eq!(rows[&0], noul(0.2));
    assert_eq!(rows[&1], noul(0.8));
    assert_eq!(rows[&2], noul(0.8));
    assert_eq!(rows[&3], noul(0.8));
    let counts = runtime.end(0);
    assert_eq!(counts.external_requests, 2);
    assert_eq!(counts.batched_requests, 2);
    assert_eq!(counts.batch_size_histogram, vec![(2, 2)]);
    assert_eq!(counts.reported_models, vec!["stub-fixed".to_string()]);
}

#[test]
fn controlled_http_batch_missing_answer_fails_once_without_retry() {
    let provider = ScriptedBatchService { mode: ReplyMode::Missing, attempts: Cell::new(0) };
    let groups = group_by_identity(vec![item("low", "same criterion", 0), item("high", "same criterion", 1)]);
    let (runtime, query_scope) = TestRuntime::begin();
    runtime.state.borrow_mut().record_optimized_rows(query_scope, 2, 0, 2, 2);
    assert!(execute_batch_groups(
        &groups,
        &provider,
        &runtime,
        16,
        limits(query_scope, 2, 1_000_000),
        None,
    ).0
    .is_err());
    assert_eq!(provider.attempts.get(), 1);
    let counts = runtime.end(32);
    assert_eq!(counts.external_requests, 1);
    assert_eq!(counts.failed_requests, 1);
}

#[test]
fn controlled_http_batch_timeout_is_counted_once_and_not_retried() {
    let provider = ScriptedBatchService { mode: ReplyMode::Fails, attempts: Cell::new(0) };
    let groups = group_by_identity(vec![item("low", "same criterion", 0), item("high", "same criterion", 1)]);
    let (runtime, query_scope) = TestRuntime::begin();
    runtime.state.borrow_mut().record_optimized_rows(query_scope, 2, 0, 2, 2);
    assert!(execute_batch_groups(
        &groups,
        &provider,
        &runtime,
        16,
        limits(query_scope, 2, 1_000_000),
        None,
    ).0
    .is_err());
    assert_eq!(provider.attempts.get(), 1);
    let counts = runtime.end(32);
    assert_eq!(counts.external_requests, 1);
    assert_eq!(counts.failed_requests, 1);
    assert_eq!(counts.usage_missing_count, 1);
}

#[test]
fn query_executor_shares_inflight_identity_and_obeys_connection_limit() {
    // Distinct judgments each reach the provider; the request slot is returned every time.
    let (runtime, query_scope) = TestRuntime::begin();
    let provider = CountingProvider::default();
    for row in 0..4 {
        let group = group_by_identity(vec![item("state", &format!("criterion {row}"), row)]);
        let output = execute_groups(&group, &provider, &runtime, limits(query_scope, 2, 1_000_000), None).0
            .unwrap();
        assert_eq!(output.len(), 1);
    }
    assert_eq!(provider.calls.get(), 4);
    assert_eq!(runtime.active.get(), 0);
    assert!(runtime.peak.get() <= 2);

    // The same judgment asked twice in one query reaches the provider once.
    let (runtime, query_scope) = TestRuntime::begin();
    let provider = CountingProvider::default();
    for _ in 0..2 {
        let group = group_by_identity(vec![item("same", "same question", 0)]);
        let output = execute_groups(&group, &provider, &runtime, limits(query_scope, 1, 1_000_000), None).0
            .unwrap();
        assert_eq!(output.len(), 1);
    }
    assert_eq!(provider.calls.get(), 1);

    // A failure is shared, not retried, and its request slot is returned.
    let (runtime, query_scope) = TestRuntime::begin();
    let provider = CountingProvider { fail: true, ..CountingProvider::default() };
    for _ in 0..2 {
        let group = group_by_identity(vec![item("same", "same question", 0)]);
        assert!(execute_groups(&group, &provider, &runtime, limits(query_scope, 1, 1_000_000), None).0
            .is_err());
    }
    assert_eq!(provider.calls.get(), 1, "failed work is not retried");
    let another_identity = group_by_identity(vec![item("other", "another question", 1)]);
    assert!(execute_groups(&another_identity, &provider, &runtime, limits(query_scope, 1, 1_000_000), None).0
        .is_err());
    assert_eq!(provider.calls.get(), 2, "the permit is returned after a provider failure");
}

#[test]
fn executor_rejects_zero_request_budget_before_any_call() {
    let (runtime, query_scope) = TestRuntime::begin();
    let provider = CountingProvider::default();
    let group = group_by_identity(vec![item("s", "q", 0)]);
    let error = execute_groups(&group, &provider, &runtime, limits(query_scope, 1, 0), None).0.unwrap_err();
    assert_eq!(error.message(), "duckjeu_max_request_bytes must be positive");
    assert_eq!(provider.calls.get(), 0);
}

#[test]
fn results_without_a_stable_model_are_not_cached() {
    let policy = CachePolicy { max_entries: 10, max_bytes: 1_000_000, ttl_nanos: 1_000_000_000 };
    let provider = CountingProvider::default();
    let (runtime, query_scope) = TestRuntime::begin();
    let work = || {
        let request = JudgmentRequest::noul(encode_text("cached"), "q").unwrap();
        let identity = JudgmentIdentity::new(
            &request,
            JudgmentIdentityContext {
                provider_namespace: "test".into(),
                endpoint: "local".into(),
                requested_model: "fixed".into(),
                effective_model: Some("fixed-v1".into()),
                credential_scope: 1,
                model_binding_scope: 1,
            },
        );
        group_by_identity(vec![JudgmentWork {
            identity,
            request,
            target: RowTarget { function_invocation: 1, data_chunk: 1, row: 0 },
        }])
    };
    let first = execute_groups(&work(), &provider, &runtime, limits(query_scope, 1, 1_000_000), Some(&policy)).0
        .unwrap();
    assert_eq!(first[0].1, noul(0.5));
    assert_eq!(provider.calls.get(), 1);
    // The provider names no stable model, so nothing was cached and the next query asks again.
    runtime.state.borrow_mut().end_query(0, 29, 0);
    runtime.state.borrow_mut().begin_query(0);
    runtime.slots.borrow_mut().clear();
    let scope = runtime.state.borrow().identity_scopes().1;
    execute_groups(&work(), &provider, &runtime, limits(scope, 1, 1_000_000), Some(&policy)).0.unwrap();
    assert_eq!(provider.calls.get(), 2);
}

#[test]
fn grouping_keeps_first_occurrence_order_and_every_target() {
    let groups = group_by_identity(vec![
        item("b", "q", 0),
        item("a", "q", 1),
        item("b", "q", 2),
        item("c", "q", 3),
        item("a", "q", 4),
    ]);
    assert_eq!(groups.len(), 3);
    assert_eq!(groups[0].request.state.as_text(), Some("b"));
    assert_eq!(groups[1].request.state.as_text(), Some("a"));
    assert_eq!(groups[2].request.state.as_text(), Some("c"));
    let rows: Vec<Vec<usize>> =
        groups.iter().map(|g| g.targets.iter().map(|t| t.row).collect()).collect();
    assert_eq!(rows, vec![vec![0, 2], vec![1, 4], vec![3]]);
}

/// A provider that pins the requested model to a stable version and reports it.
#[derive(Default)]
struct PinnedModelProvider {
    calls: Cell<usize>,
}

impl Provider for PinnedModelProvider {
    fn capabilities(&self) -> ProviderCapabilities {
        CountingProvider::default().capabilities()
    }

    fn judge(&self, _request: &JudgmentRequest) -> Result<JudgmentResult, JudgmentError> {
        self.calls.set(self.calls.get() + 1);
        Ok(noul(0.25))
    }

    fn judge_with_metadata(&self, request: &JudgmentRequest) -> Result<ProviderBatchResult, JudgmentError> {
        let result = self.judge(request)?;
        Ok(ProviderBatchResult {
            answers: vec![ProviderAnswer { request_key: request.request_key.clone(), result }],
            metadata: ProviderMetadata {
                effective_model: Some("fixed-v1".into()),
                ..ProviderMetadata::empty()
            },
        })
    }

    fn cache_model_identity(&self, _requested_model: &str) -> Option<String> {
        Some("fixed-v1".into())
    }
}

#[test]
fn pinned_model_successes_are_reused_across_queries() {
    let policy = CachePolicy { max_entries: 10, max_bytes: 1_000_000, ttl_nanos: 1_000_000_000 };
    let provider = PinnedModelProvider::default();
    let (runtime, query_scope) = TestRuntime::begin();
    let group = group_by_identity(vec![item("cached", "q", 0)]);
    let first =
        execute_groups(&group, &provider, &runtime, limits(query_scope, 1, 1_000_000), Some(&policy)).0.unwrap();
    assert_eq!(first[0].1, noul(0.25));
    runtime.state.borrow_mut().record_row_input(query_scope);
    runtime.end(0);

    runtime.state.borrow_mut().begin_query(runtime.clock.get());
    let scope = runtime.state.borrow().identity_scopes().1;
    runtime.state.borrow_mut().record_row_input(scope);
    let group = group_by_identity(vec![item("cached", "q", 0)]);
    let second = execute_groups(&group, &provider, &runtime, limits(scope, 1, 1_000_000), Some(&policy)).0.unwrap();
    assert_eq!(second[0].1, noul(0.25));
    assert_eq!(provider.calls.get(), 1, "the second query is served from the cache");
    let counts = runtime.end(0);
    assert_eq!(counts.cache_hit_judgments, 1);
}

#[test]
fn row_mode_judges_once_and_accounts_the_call() {
    let provider = ScriptedBatchService { mode: ReplyMode::Fails, attempts: Cell::new(0) };
    let (runtime, query_scope) = TestRuntime::begin();
    runtime.state.borrow_mut().record_row_input(query_scope);
    let request = JudgmentRequest::noul(encode_text("s"), "q").unwrap();
    // The scripted service has no single-request path: the call fails and is counted once.
    assert!(judge_row(&request, &provider, Some(&runtime), query_scope, 1).0.is_err());
    assert_eq!(runtime.active.get(), 0, "the request slot is returned");
    let counts = runtime.end(0);
    assert_eq!(counts.provider_invocations, 1);
    assert_eq!(counts.external_requests, 1);
    assert_eq!(counts.failed_requests, 1);

    let local = CountingProvider::default();
    assert_eq!(judge_row::<_, TestRuntime>(&request, &local, None, 0, 1).0.unwrap(), noul(0.5));
    assert_eq!(local.calls.get(), 1);

    let choice = JudgmentRequest::choice(encode_text("s"), "q", &["a".into(), "b".into()]).unwrap();
    let narrow = ScriptedBatchService { mode: ReplyMode::Valid, attempts: Cell::new(0) };
    let mut labels: Vec<String> = (0..300).map(|i| format!("l{i}")).collect();
    labels.dedup();
    let wide = JudgmentRequest::choice(encode_text("s"), "q", &labels).unwrap();
    assert_eq!(
        judge_row::<_, TestRuntime>(&wide, &narrow, None, 0, 1).0.unwrap_err().message(),
        "choice count exceeds the verified provider limit"
    );
    assert!(judge_row::<_, TestRuntime>(&choice, &narrow, None, 0, 1).0.is_err());
}

fn chunk_rows() -> Vec<Option<JudgmentRequest>> {
    let request = |state: &str| JudgmentRequest::noul(encode_text(state), "is it low?").unwrap();
    vec![Some(request("low")), None, Some(request("high")), Some(request("low")), None]
}

#[test]
fn optimized_chunk_shares_duplicate_judgments_and_keeps_null_rows() {
    for batch in [false, true] {
        let config =
            RuntimeConfig::from_values("optimized", batch, 8, 262_144, 4, false, 10, 10_000, 1_000).unwrap();
        let provider = RecordingBatchProvider::default();
        let (runtime, query_scope) = TestRuntime::begin();
        runtime.state.borrow_mut().record_optimized_rows(query_scope, 5, 0, 0, 0);
        let out = run_chunk(
            chunk_rows(),
            &ProviderContext::default(),
            1,
            query_scope,
            1,
            1,
            &config,
            Ok(&provider),
            &runtime,
        ).0
        .unwrap();
        assert_eq!(out, vec![Some(noul(0.2)), None, Some(noul(0.8)), Some(noul(0.2)), None]);
        if batch {
            assert_eq!(provider.calls.borrow().len(), 1, "two distinct judgments fit one batch");
            assert_eq!(provider.calls.borrow()[0].len(), 2);
        } else {
            assert!(provider.calls.borrow().is_empty(), "single judgments do not use the batch path");
        }
        let counts = runtime.end(0);
        assert_eq!(counts.null_rows, 2);
        assert_eq!(counts.valid_rows, 3);
        assert_eq!(counts.unique_judgments, 2);
    }
}

#[test]
fn optimized_chunk_reports_a_provider_setup_error_only_when_a_row_is_judged() {
    let config =
        RuntimeConfig::from_values("optimized", true, 8, 262_144, 4, false, 10, 10_000, 1_000).unwrap();
    let (runtime, query_scope) = TestRuntime::begin();
    let all_null = run_chunk::<RecordingBatchProvider, TestRuntime>(
        vec![None, None],
        &ProviderContext::default(),
        1,
        query_scope,
        1,
        1,
        &config,
        Err("provider is not configured".into()),
        &runtime,
    ).0
    .unwrap();
    assert_eq!(all_null, vec![None, None]);
    let error = run_chunk::<RecordingBatchProvider, TestRuntime>(
        chunk_rows(),
        &ProviderContext::default(),
        1,
        query_scope,
        1,
        2,
        &config,
        Err("provider is not configured".into()),
        &runtime,
    ).0
    .unwrap_err();
    assert_eq!(error.message(), "provider is not configured");
    let failing = CountingProvider { calls: Cell::new(0), fail: true };
    assert!(run_chunk(chunk_rows(), &ProviderContext::default(), 1, query_scope, 1, 3, &config, Ok(&failing), &runtime).0
        .is_err());
}

#[test]
fn a_null_row_is_answered_before_any_setup_error() {
    let broken: Result<&RuntimeConfig, &String> = Err(&"bad settings".to_string());
    let no_provider: Result<&MockProvider, &String> = Err(&"no provider".to_string());
    let none = evaluate_row_request::<MockProvider, TestRuntime>(None, broken, no_provider, None, 0);
    assert_eq!(none.unwrap(), None);

    let request = JudgmentRequest::noul(encode_text("s"), "q").unwrap();
    let error = evaluate_row_request::<MockProvider, TestRuntime>(
        Some(&request),
        Err(&"bad settings".to_string()),
        Ok(&MockProvider),
        None,
        0,
    )
    .unwrap_err();
    assert_eq!((error.kind(), error.message()), (ErrorKind::Configuration, "bad settings"));

    let row = RuntimeConfig::from_values("row", false, 16, 262_144, 4, false, 10_000, 67_108_864, 60_000).unwrap();
    let optimized =
        RuntimeConfig::from_values("optimized", false, 16, 262_144, 4, false, 10_000, 67_108_864, 60_000).unwrap();
    let error = evaluate_row_request::<MockProvider, TestRuntime>(
        Some(&request),
        Ok(&optimized),
        Ok(&MockProvider),
        None,
        0,
    )
    .unwrap_err();
    assert_eq!(error.message(), "internal error: optimized execution reached the row evaluator");
    let error = evaluate_row_request::<MockProvider, TestRuntime>(
        Some(&request),
        Ok(&row),
        Err(&"no provider".to_string()),
        None,
        0,
    )
    .unwrap_err();
    assert_eq!(error.message(), "no provider");
    let judged = evaluate_row_request::<MockProvider, TestRuntime>(
        Some(&request),
        Ok(&row),
        Ok(&MockProvider),
        None,
        0,
    )
    .unwrap();
    assert_eq!(judged, Some(MockProvider.judge(&request).unwrap()));
}

#[test]
fn no_groups_need_no_provider_call() {
    let provider = CountingProvider { calls: Cell::new(0), fail: true };
    let (runtime, query_scope) = TestRuntime::begin();
    let out = execute_groups(&[], &provider, &runtime, limits(query_scope, 1, 1), None).0.unwrap();
    assert!(out.is_empty());
    assert_eq!(provider.calls.get(), 0);
}
