//! What the SQL functions decide around the DuckDB vectors: which limits and identities a
//! chunk runs with, which rows a provider result belongs to, what each function writes, and
//! how a query ends.

use vstd::prelude::*;

use crate::cache::CachePolicy;
use crate::config::{ExecutionMode, RuntimeConfig};
use crate::executor::{
    single_source_ok, source_ok, ExecutionTrace,
    covers, execute_batch_groups, execute_groups, group_by_identity, is_grouping, ExecutionLimits,
    JudgmentGroup, JudgmentWork, RowTarget,
};
use crate::host::QueryOutcome;
use crate::runtime::ExecutionRuntime;
use crate::judgment::{
    at_least_half_bits, result_answers, ErrorKind, IdentityView, JudgmentError, JudgmentIdentity,
    JudgmentIdentityContext, JudgmentRequest, JudgmentResult, QuestionKind, RequestView,
};
use crate::provider::{
    validate_batch_result, CapabilityStatus, Provider, ProviderAnswer, ProviderBatchResult, ProviderCapabilities,
    ProviderContext,
};

verus! {

/// The three SQL functions share one execution path and differ only in their output.
#[derive(Debug, Clone, Copy, PartialEq, Eq, Structural)]
pub enum FunctionKind {
    Prob,
    Bool,
    Choice,
}

/// A row whose state, text or (for `jev_choice`) label list is a top-level NULL gives NULL
/// without a provider call.
pub fn top_level_null(kind: FunctionKind, state_null: bool, text_null: bool, choices_null: bool) -> (r:
    bool)
    ensures
        r == (state_null || text_null || (kind == FunctionKind::Choice && choices_null)),
{
    state_null || text_null || (kind == FunctionKind::Choice && choices_null)
}

/// The value written to one output row.
#[derive(Debug, Clone, PartialEq)]
pub enum OutputCell {
    /// A DOUBLE, as the bit pattern of the binary64 value.
    Double(u64),
    Boolean(bool),
    Text(String),
    /// A result of the wrong type for the function: the row is left as it is.
    Untouched,
}

/// `jev_prob` writes the probability, `jev_bool` applies the inclusive 0.5 threshold, and
/// `jev_choice` writes the label.
pub fn output_cell(kind: FunctionKind, result: &JudgmentResult) -> (r: OutputCell)
    ensures
        match (kind, *result) {
            (FunctionKind::Prob, JudgmentResult::Noul(p)) => r == OutputCell::Double(p),
            (FunctionKind::Bool, JudgmentResult::Noul(p)) => r == OutputCell::Boolean(
                at_least_half_bits(p),
            ),
            (FunctionKind::Choice, JudgmentResult::Choice(label)) => r matches OutputCell::Text(
                t,
            ) && t@ == label@,
            _ => r == OutputCell::Untouched,
        },
{
    match (kind, result) {
        (FunctionKind::Prob, JudgmentResult::Noul(p)) => OutputCell::Double(*p),
        (FunctionKind::Bool, JudgmentResult::Noul(p)) => OutputCell::Boolean(
            crate::judgment::bool_from_probability(*p),
        ),
        (FunctionKind::Choice, JudgmentResult::Choice(label)) => OutputCell::Text(label.clone()),
        _ => OutputCell::Untouched,
    }
}

/// The cache policy of an optimized execution with caching enabled (TTL in nanoseconds,
/// saturating).
pub fn cache_policy_for(config: &RuntimeConfig) -> (r: Option<CachePolicy>)
    ensures
        !config.cache_enabled ==> r is None,
        config.cache_enabled ==> r == Some(
            CachePolicy {
                max_entries: config.cache_max_entries,
                max_bytes: config.cache_max_bytes,
                ttl_nanos: if config.cache_ttl_ms * 1_000_000 > u64::MAX {
                    u64::MAX
                } else {
                    (config.cache_ttl_ms * 1_000_000) as u64
                },
            },
        ),
{
    if !config.cache_enabled {
        return None;
    }
    let ttl_ms = config.cache_ttl_ms as u64;
    let ttl_nanos: u64 = if ttl_ms > u64::MAX / 1_000_000 {
        u64::MAX
    } else {
        ttl_ms * 1_000_000
    };
    Some(
        CachePolicy {
            max_entries: config.cache_max_entries,
            max_bytes: config.cache_max_bytes,
            ttl_nanos,
        },
    )
}

/// The limits of one optimized execution.
pub fn execution_limits(config: &RuntimeConfig, query_scope: u64) -> (r: ExecutionLimits)
    ensures
        r == (ExecutionLimits {
            query_scope,
            max_inflight: config.max_inflight,
            max_request_bytes: config.max_request_bytes,
        }),
{
    ExecutionLimits {
        query_scope,
        max_inflight: config.max_inflight,
        max_request_bytes: config.max_request_bytes,
    }
}

/// The identity context of the rows of one execution: the configured service and model,
/// the credential scope, and the query as the scope of an unresolved model alias.
pub fn identity_context_for(
    context: &ProviderContext,
    credential_scope: u64,
    query_scope: u64,
) -> (r: JudgmentIdentityContext)
    ensures
        r.provider_namespace@ == context.provider.name(),
        r.endpoint@ == context.api_url@,
        r.requested_model@ == context.model@,
        r.effective_model is None,
        r.credential_scope == credential_scope,
        r.model_binding_scope == query_scope,
{
    JudgmentIdentityContext {
        provider_namespace: String::from_str(context.provider.as_str()),
        endpoint: context.api_url.clone(),
        requested_model: context.model.clone(),
        effective_model: None,
        credential_scope,
        model_binding_scope: query_scope,
    }
}

/// Row mode asks the provider only for question types it verifies, and a choice only within
/// its label limit.
pub fn check_row_capabilities(capabilities: &ProviderCapabilities, request: &JudgmentRequest) -> (r:
    Result<(), JudgmentError>)
    ensures
        ({
            let status = match request.kind {
                QuestionKind::Noul => capabilities.noul,
                QuestionKind::Choice => capabilities.choice,
            };
            if status != CapabilityStatus::Verified {
                r matches Err(e) && e.error_kind() == ErrorKind::Configuration && e.error_text()
                    == "provider does not verify support for this judgment type"@
            } else if capabilities.max_choices matches Some(limit) && request.kind
                == QuestionKind::Choice && request.choices@.len() > limit {
                r matches Err(e) && e.error_kind() == ErrorKind::Configuration && e.error_text()
                    == "choice count exceeds the verified provider limit"@
            } else {
                r is Ok
            }
        }),
{
    if capabilities.supports(request.kind) != CapabilityStatus::Verified {
        return Err(
            JudgmentError::configuration("provider does not verify support for this judgment type"),
        );
    }
    if let Some(limit) = capabilities.max_choices {
        if request.kind == QuestionKind::Choice && request.choices.len() > limit {
            return Err(
                JudgmentError::configuration("choice count exceeds the verified provider limit"),
            );
        }
    }
    Ok(())
}

/// The result of a row-mode response: the response must answer exactly this request.
pub fn row_result(request: &JudgmentRequest, response: &ProviderBatchResult) -> (r: Result<
    JudgmentResult,
    JudgmentError,
>)
    ensures
        r is Ok <==> (response.answers@.len() == 1 && response.answers@[0].request_key@
            == request.request_key@ && result_answers(request@, response.answers@[0].result)),
        r matches Ok(result) ==> result == response.answers@[0].result,
{
    let mut single: Vec<JudgmentRequest> = Vec::new();
    single.push(request.with_key(request.request_key.clone()));
    proof {
        let answers = response.answers@;
        if answers.len() == 1 && answers[0].request_key@ == request.request_key@ && result_answers(
            request@,
            answers[0].result,
        ) {
            assert(crate::provider::has_request_key(single@, answers[0].request_key@)) by {
                assert(single@[0].request_key@ == answers[0].request_key@);
            }
            let k = crate::provider::first_request_with_key(single@, answers[0].request_key@);
            assert(k == 0);
            assert(!crate::provider::answer_keys(answers).subrange(0, 0).contains(
                answers[0].request_key@,
            ));
            assert(crate::provider::answer_acceptable(single@, answers, 0));
            assert(crate::provider::batch_valid(single@, answers));
        }
    }
    validate_batch_result(single.as_slice(), response)?;
    if response.answers.len() == 0 {
        return Err(JudgmentError::invalid_response("provider returned no answer"));
    }
    proof {
        assert(crate::provider::answer_acceptable(single@, response.answers@, 0));
    }
    Ok(response.answers[0].result.duplicate())
}

/// One row in row mode. A row without a judgment (a top-level NULL) gives NULL before any
/// setup error is looked at; a row with one fails on a settings error or on a provider that
/// could not be set up (with that text), and is otherwise judged by `judge_row`.
pub fn evaluate_row_request<P: Provider + ?Sized, R: ExecutionRuntime + ?Sized>(
    request: Option<&JudgmentRequest>,
    config: Result<&RuntimeConfig, &String>,
    provider: Result<&P, &String>,
    connection: Option<&R>,
    query_scope: u64,
) -> (r: Result<Option<JudgmentResult>, JudgmentError>)
    ensures
        request is None ==> r == Ok::<Option<JudgmentResult>, JudgmentError>(None),
        request is Some ==> match config {
            Err(m) => r matches Err(e) && e.error_kind() == ErrorKind::Configuration
                && e.error_text() == m@,
            Ok(c) => if c.mode != ExecutionMode::Row {
                r matches Err(e) && e.error_kind() == ErrorKind::Configuration && e.error_text()
                    == "internal error: optimized execution reached the row evaluator"@
            } else {
                provider matches Err(m) ==> (r matches Err(e) && e.error_kind()
                    == ErrorKind::Configuration && e.error_text() == m@)
            },
        },
        r matches Ok(Some(result)) ==> request matches Some(q) && result_answers(q@, result),
        r matches Ok(None) ==> request is None,
{
    let request = match request {
        Some(request) => request,
        None => {
            return Ok(None);
        },
    };
    let config = match config {
        Ok(config) => config,
        Err(message) => {
            return Err(JudgmentError::with_message(ErrorKind::Configuration, message.clone()));
        },
    };
    if config.mode != ExecutionMode::Row {
        return Err(
            JudgmentError::configuration(
                "internal error: optimized execution reached the row evaluator",
            ),
        );
    }
    let provider = match provider {
        Ok(provider) => provider,
        Err(message) => {
            return Err(JudgmentError::with_message(ErrorKind::Configuration, message.clone()));
        },
    };
    let result = judge_row(request, provider, connection, query_scope, config.max_inflight).0?;
    Ok(Some(result))
}

/// Row mode: one judgment, one provider call. The provider must verify the question type and
/// the label count; with a connection the call holds a request slot and is accounted for (a
/// failed external call counts as a failed request). The answer must be the only one, carry
/// the request's key and answer the request.
pub fn judge_row<P: Provider + ?Sized, R: ExecutionRuntime + ?Sized>(
    request: &JudgmentRequest,
    provider: &P,
    connection: Option<&R>,
    query_scope: u64,
    max_inflight: usize,
) -> (r: (Result<JudgmentResult, JudgmentError>, Ghost<Seq<ProviderAnswer>>))
    ensures
        r.0 matches Ok(result) ==> {
            &&& result_answers(request@, result)
            &&& r.1@.len() == 1
            &&& r.1@[0].request_key@ == request.request_key@
            &&& result == r.1@[0].result
        },
{
    let ghost none = Seq::<ProviderAnswer>::empty();
    if let Err(error) = check_row_capabilities(&provider.capabilities(), request) {
        return (Err(error), Ghost(none));
    }
    let external = provider.makes_external_request();
    match connection {
        None => {
            let response = match provider.judge_with_metadata(request) {
                Ok(response) => response,
                Err(error) => return (Err(error), Ghost(none)),
            };
            let ghost answers = response.answers@;
            (row_result(request, &response), Ghost(answers))
        },
        Some(runtime) => {
            let _permit = match runtime.acquire_permit(query_scope, max_inflight) {
                Ok(permit) => permit,
                Err(error) => return (Err(error), Ghost(none)),
            };
            runtime.record_provider_attempt(query_scope, 1, external);
            let started = runtime.now_ns();
            let response = provider.judge_with_metadata(request);
            let elapsed = runtime.now_ns().saturating_sub(started);
            match response {
                Ok(response) => {
                    runtime.record_provider_response(
                        query_scope,
                        &response.metadata,
                        elapsed,
                        external,
                    );
                    let ghost answers = response.answers@;
                    (row_result(request, &response), Ghost(answers))
                },
                Err(error) => {
                    if external {
                        runtime.record_failed_request(query_scope);
                        runtime.record_provider_failure(query_scope, elapsed, external);
                    }
                    (Err(error), Ghost(none))
                },
            }
        },
    }
}

/// Positions of the rows that ask a judgment, in order.
pub open spec fn present_rows(rows: Seq<Option<JudgmentRequest>>) -> Seq<int>
    decreases rows.len(),
{
    if rows.len() == 0 {
        Seq::empty()
    } else if rows.last() is Some {
        present_rows(rows.drop_last()).push(rows.len() - 1)
    } else {
        present_rows(rows.drop_last())
    }
}

/// The identity a row's request has in one execution: the configured service and model, the
/// credential scope, and the query as the scope of the unresolved model alias.
pub open spec fn row_identity(
    request: RequestView,
    context: ProviderContext,
    credential_scope: u64,
    query_scope: u64,
) -> IdentityView {
    IdentityView {
        canonical_version: crate::serialize::CANONICAL_VERSION,
        state_kind: request.state_kind,
        canonical_bytes: request.state_bytes,
        question_kind: request.kind,
        criterion: request.criterion,
        question: request.question,
        choices: request.choices,
        provider_namespace: context.provider.name(),
        endpoint: context.api_url@,
        requested_model: context.model@,
        effective_model: None,
        credential_scope,
        unresolved_model_scope: Some(query_scope),
    }
}

/// The target of row `row` of a chunk.
pub open spec fn chunk_target(function_invocation: u64, data_chunk: u64, row: int) -> RowTarget {
    RowTarget { function_invocation, data_chunk, row: row as usize }
}

/// `work` holds, in row order, the judgment of every row that asks one, at the row's target.
pub open spec fn chunk_work(
    rows: Seq<Option<JudgmentRequest>>,
    work: Seq<JudgmentWork>,
    context: ProviderContext,
    credential_scope: u64,
    query_scope: u64,
    function_invocation: u64,
    data_chunk: u64,
) -> bool {
    &&& work.len() == present_rows(rows).len()
    &&& forall|k: int|
        #![trigger work[k]]
        0 <= k < work.len() ==> {
            let i = present_rows(rows)[k];
            &&& 0 <= i < rows.len()
            &&& rows[i] == Some(work[k].request)
            &&& work[k].identity@ == row_identity(
                work[k].request@,
                context,
                credential_scope,
                query_scope,
            )
            &&& work[k].target == chunk_target(function_invocation, data_chunk, i)
        }
}

proof fn lemma_present_rows(rows: Seq<Option<JudgmentRequest>>)
    ensures
        forall|k: int|
            0 <= k < present_rows(rows).len() ==> 0 <= #[trigger] present_rows(rows)[k] < rows.len()
                && rows[present_rows(rows)[k]] is Some,
        forall|k1: int, k2: int|
            0 <= k1 < k2 < present_rows(rows).len() ==> present_rows(rows)[k1] < present_rows(
                rows,
            )[k2],
        forall|i: int|
            0 <= i < rows.len() && (#[trigger] rows[i]) is Some ==> exists|k: int|
                0 <= k < present_rows(rows).len() && present_rows(rows)[k] == i,
        present_rows(rows).len() <= rows.len(),
    decreases rows.len(),
{
    if rows.len() > 0 {
        let d = rows.drop_last();
        lemma_present_rows(d);
        let p = present_rows(d);
        assert forall|k: int| 0 <= k < p.len() implies rows[p[k]] == d[p[k]] by {}
        assert forall|i: int| 0 <= i < rows.len() && (#[trigger] rows[i]) is Some implies exists|
            k: int,
        | 0 <= k < present_rows(rows).len() && present_rows(rows)[k] == i by {
            if i == rows.len() - 1 {
                assert(present_rows(rows)[p.len() as int] == i);
            } else {
                assert(d[i] == rows[i]);
                let k = choose|k: int| 0 <= k < p.len() && p[k] == i;
                assert(present_rows(rows)[k] == i);
            }
        }
    }
}

proof fn lemma_present_rows_step(rows: Seq<Option<JudgmentRequest>>, i: int)
    requires
        0 <= i < rows.len(),
    ensures
        present_rows(rows.subrange(0, i + 1)) == if rows[i] is Some {
            present_rows(rows.subrange(0, i)).push(i)
        } else {
            present_rows(rows.subrange(0, i))
        },
{
    assert(rows.subrange(0, i + 1).drop_last() =~= rows.subrange(0, i));
}

/// The judgments of a chunk's rows, in row order, and the number of NULL rows.
fn chunk_work_items(
    rows: Vec<Option<JudgmentRequest>>,
    context: &ProviderContext,
    credential_scope: u64,
    query_scope: u64,
    function_invocation: u64,
    data_chunk: u64,
) -> (r: (Vec<JudgmentWork>, usize))
    ensures
        chunk_work(
            rows@,
            r.0@,
            *context,
            credential_scope,
            query_scope,
            function_invocation,
            data_chunk,
        ),
        r.1 + r.0@.len() == rows@.len(),
{
    let ghost all = rows@;
    let n = rows.len();
    let mut rest = crate::executor::reversed(rows);
    let mut work: Vec<JudgmentWork> = Vec::new();
    let mut null_rows: usize = 0;
    let mut i: usize = 0;
    while i < n
        invariant
            n == all.len(),
            i <= n,
            rest@.len() == n - i,
            forall|q: int| 0 <= q < rest@.len() ==> #[trigger] rest@[q] == all[n - 1 - q],
            null_rows + work@.len() == i,
            chunk_work(
                all.subrange(0, i as int),
                work@,
                *context,
                credential_scope,
                query_scope,
                function_invocation,
                data_chunk,
            ),
        decreases n - i,
    {
        let ghost before = work@;
        let item = rest.pop().unwrap();
        assert(item == all[i as int]);
        proof {
            lemma_present_rows_step(all, i as int);
            lemma_present_rows(all.subrange(0, i as int));
        }
        let ghost sub = all.subrange(0, i + 1);
        match item {
            None => {
                null_rows = null_rows + 1;
                proof {
                    assert forall|k: int| 0 <= k < work@.len() implies {
                        let p = present_rows(sub)[k];
                        &&& 0 <= p < sub.len()
                        &&& sub[p] == Some((#[trigger] work@[k]).request)
                    } by {
                        let p = present_rows(all.subrange(0, i as int))[k];
                        assert(all.subrange(0, i as int)[p] == sub[p]);
                    }
                }
            },
            Some(request) => {
                let ghost req = request;
                let context_for_row = identity_context_for(context, credential_scope, query_scope);
                let identity = JudgmentIdentity::new(&request, context_for_row);
                let target = RowTarget { function_invocation, data_chunk, row: i };
                work.push(JudgmentWork { identity, request, target });
                proof {
                    let p = present_rows(sub);
                    assert(p == present_rows(all.subrange(0, i as int)).push(i as int));
                    assert forall|k: int| 0 <= k < work@.len() implies {
                        let q = p[k];
                        &&& 0 <= q < sub.len()
                        &&& sub[q] == Some((#[trigger] work@[k]).request)
                        &&& work@[k].identity@ == row_identity(
                            work@[k].request@,
                            *context,
                            credential_scope,
                            query_scope,
                        )
                        &&& work@[k].target == chunk_target(function_invocation, data_chunk, q)
                    } by {
                        if k < before.len() {
                            let q0 = present_rows(all.subrange(0, i as int))[k];
                            assert(work@[k] == before[k]);
                            assert(all.subrange(0, i as int)[q0] == sub[q0]);
                        } else {
                            assert(work@[k].request == req);
                            assert(sub[i as int] == all[i as int]);
                        }
                    }
                }
            },
        }
        i = i + 1;
    }
    assert(all.subrange(0, n as int) =~= all);
    (work, null_rows)
}


proof fn lemma_last_result_none(executed: Seq<(RowTarget, JudgmentResult)>, row: int)
    requires
        forall|k: int| 0 <= k < executed.len() ==> (#[trigger] executed[k]).0.row != row,
    ensures
        last_result_for(executed, row) is None,
    decreases executed.len(),
{
    if executed.len() > 0 {
        let d = executed.drop_last();
        assert(executed.last() == executed[executed.len() - 1]);
        assert forall|k: int| 0 <= k < d.len() implies (#[trigger] d[k]).0.row != row by {
            assert(d[k] == executed[k]);
        }
        lemma_last_result_none(d, row);
    }
}

proof fn lemma_last_result_some(executed: Seq<(RowTarget, JudgmentResult)>, row: int, v: JudgmentResult)
    requires
        exists|k: int| 0 <= k < executed.len() && (#[trigger] executed[k]).0.row == row,
        forall|k: int| 0 <= k < executed.len() && (#[trigger] executed[k]).0.row == row ==> executed[k].1 == v,
    ensures
        last_result_for(executed, row) == Some(v),
    decreases executed.len(),
{
    let n = executed.len();
    assert(executed.last() == executed[n - 1]);
    if executed.last().0.row != row {
        let d = executed.drop_last();
        let w = choose|k: int| 0 <= k < n && (#[trigger] executed[k]).0.row == row;
        assert(w < n - 1);
        assert(d[w] == executed[w]);
        assert forall|k: int| 0 <= k < d.len() && (#[trigger] d[k]).0.row == row implies d[k].1 == v by {
            assert(d[k] == executed[k]);
        }
        lemma_last_result_some(d, row, v);
    }
}

/// The work item and the group an executed pair comes from.
proof fn lemma_pair_source(
    work: Seq<JudgmentWork>,
    groups: Seq<JudgmentGroup>,
    results: Seq<JudgmentResult>,
    executed: Seq<(RowTarget, JudgmentResult)>,
    k: int,
) -> (wg: (int, int))
    requires
        is_grouping(work, groups),
        covers(groups, results, executed),
        0 <= k < executed.len(),
    ensures
        0 <= wg.0 < work.len(),
        work[wg.0].target == executed[k].0,
        0 <= wg.1 < groups.len(),
        groups[wg.1].identity@ == work[wg.0].identity@,
        executed[k].1 == results[wg.1],
{
    assert(crate::executor::from_group(groups, results, executed[k]));
    let g = choose|g: int|
        0 <= g < groups.len() && groups[g].targets@.contains(executed[k].0) && executed[k].1
            == results[g];
    let id = groups[g].identity@;
    crate::executor::lemma_work_targets_members(work, id);
    let targets = groups[g].targets@;
    assert(targets == crate::executor::work_targets(work, id));
    let j = choose|j: int| 0 <= j < targets.len() && targets[j] == executed[k].0;
    let w = choose|w: int|
        0 <= w < work.len() && work[w].target == crate::executor::work_targets(work, id)[j]
            && work[w].identity@ == id;
    (w, g)
}

/// A row that asks a judgment receives the result of the group of its judgment, and that result
/// answers the row's request.
#[verifier::spinoff_prover]
proof fn lemma_row_output(
    rows: Seq<Option<JudgmentRequest>>,
    work: Seq<JudgmentWork>,
    groups: Seq<JudgmentGroup>,
    results: Seq<JudgmentResult>,
    executed: Seq<(RowTarget, JudgmentResult)>,
    context: ProviderContext,
    credential_scope: u64,
    query_scope: u64,
    function_invocation: u64,
    data_chunk: u64,
    i: int,
) -> (g: int)
    requires
        rows.len() <= usize::MAX,
        chunk_work(rows, work, context, credential_scope, query_scope, function_invocation, data_chunk),
        is_grouping(work, groups),
        covers(groups, results, executed),
        0 <= i < rows.len(),
        rows[i] is Some,
    ensures
        0 <= g < groups.len(),
        groups[g].identity@ == row_identity(rows[i]->Some_0@, context, credential_scope, query_scope),
        last_result_for(executed, i) == Some(results[g]),
        result_answers(rows[i]->Some_0@, results[g]),
{
    lemma_present_rows(rows);
    let p = present_rows(rows);
    let w = choose|w: int| 0 <= w < p.len() && p[w] == i;
    assert(0 <= w < work.len());
    let ww = work[w];
    let id = ww.identity@;
    assert(rows[i] == Some(ww.request));
    assert(exists|g: int| 0 <= g < groups.len() && groups[g].identity@ == (#[trigger] work[w]).identity@);
    let g = choose|g: int| 0 <= g < groups.len() && groups[g].identity@ == (#[trigger] work[w]).identity@;
    crate::executor::lemma_work_targets_contains(work, w);
    let targets = groups[g].targets@;
    assert(targets == crate::executor::work_targets(work, id));
    let j = choose|j: int| 0 <= j < targets.len() && targets[j] == ww.target;
    assert(executed.contains((targets[j], results[g])));
    let e = choose|e: int| 0 <= e < executed.len() && executed[e] == (targets[j], results[g]);
    assert(executed[e].0.row == i);
    assert forall|k: int| 0 <= k < executed.len() && (#[trigger] executed[k]).0.row == i implies executed[k].1
        == results[g] by {
        let (w2, g2) = lemma_pair_source(work, groups, results, executed, k);
        let ww2 = work[w2];
        assert(0 <= p[w2] < rows.len());
        assert(p[w2] == i);
        if w2 != w {
            if w2 < w {
                assert(p[w2] < p[w]);
            } else {
                assert(p[w] < p[w2]);
            }
        }
        if g2 != g {
            if g2 < g {
                assert(groups[g2].identity@ != groups[g].identity@);
            } else {
                assert(groups[g].identity@ != groups[g2].identity@);
            }
        }
    }
    lemma_last_result_some(executed, i, results[g]);
    let f = crate::executor::first_index(work, id);
    crate::executor::lemma_first_index(work, id);
    assert(groups[g].request@ == work[f].request@);
    let wf = work[f];
    assert(wf.identity@ == id);
    assert(result_answers(groups[g].request@, results[g]));
    g
}

/// Every executed pair names a row of the chunk, and a NULL row receives nothing.
proof fn lemma_chunk_rows(
    rows: Seq<Option<JudgmentRequest>>,
    work: Seq<JudgmentWork>,
    groups: Seq<JudgmentGroup>,
    results: Seq<JudgmentResult>,
    executed: Seq<(RowTarget, JudgmentResult)>,
    context: ProviderContext,
    credential_scope: u64,
    query_scope: u64,
    function_invocation: u64,
    data_chunk: u64,
)
    requires
        rows.len() <= usize::MAX,
        chunk_work(rows, work, context, credential_scope, query_scope, function_invocation, data_chunk),
        is_grouping(work, groups),
        covers(groups, results, executed),
    ensures
        forall|k: int| 0 <= k < executed.len() ==> (#[trigger] executed[k]).0.row < rows.len(),
        forall|i: int|
            0 <= i < rows.len() && rows[i] is None ==> #[trigger] last_result_for(executed, i) is None,
{
    lemma_present_rows(rows);
    let p = present_rows(rows);
    assert forall|k: int| 0 <= k < executed.len() implies (#[trigger] executed[k]).0.row < rows.len()
        && rows[executed[k].0.row as int] is Some by {
        let (w, g) = lemma_pair_source(work, groups, results, executed, k);
        let ww = work[w];
        assert(0 <= p[w] < rows.len() && rows[p[w]] is Some);
    }
    assert forall|i: int| 0 <= i < rows.len() && rows[i] is None implies #[trigger] last_result_for(
        executed,
        i,
    ) is None by {
        lemma_last_result_none(executed, i);
    }
}

/// The output cell of a row asking `request` holds the result of the group with the row's
/// identity, and that result is what the group's recorded source gives.
pub open spec fn row_traced(
    request: JudgmentRequest,
    cell: Option<JudgmentResult>,
    groups: Seq<JudgmentGroup>,
    trace: ExecutionTrace,
    context: ProviderContext,
    credential_scope: u64,
    query_scope: u64,
) -> bool {
    exists|g: int|
        #![trigger groups[g]]
        0 <= g < groups.len() && groups[g].identity@ == row_identity(
            request@,
            context,
            credential_scope,
            query_scope,
        ) && cell == Some(trace.results[g]) && source_ok(
            groups,
            trace.batches,
            g,
            trace.sources[g],
            trace.results[g],
        )
}

/// Optimized mode for one chunk. Rows with a top-level NULL (`None`) ask nothing; the other
/// rows are grouped by judgment identity in this execution's context, the distinct judgments
/// are executed once each (in batches when batching is on, through the cache when it is on),
/// and every row receives the result of its judgment. Nothing is returned unless every
/// judgment succeeded; a provider that could not be set up fails the chunk only when some row
/// asks a judgment. The ghost record gives the groups and the execution trace each row's
/// result comes from.
#[verifier::spinoff_prover]
#[verifier::rlimit(40)]
pub fn run_chunk<P: Provider + ?Sized, R: ExecutionRuntime + ?Sized>(
    rows: Vec<Option<JudgmentRequest>>,
    context: &ProviderContext,
    credential_scope: u64,
    query_scope: u64,
    function_invocation: u64,
    data_chunk: u64,
    config: &RuntimeConfig,
    provider: Result<&P, String>,
    runtime: &R,
) -> (r: (
    Result<Vec<Option<JudgmentResult>>, JudgmentError>,
    Ghost<(Seq<JudgmentGroup>, ExecutionTrace)>,
))
    ensures
        present_rows(rows@).len() == 0 ==> r.0 is Ok,
        present_rows(rows@).len() > 0 && provider is Err ==> (r.0 matches Err(e) && e.error_kind()
            == ErrorKind::Configuration && e.error_text() == provider->Err_0@),
        r.0 matches Ok(out) ==> forall|i: int|
            0 <= i < rows@.len() && rows@[i] is Some ==> row_traced(
                rows@[i]->Some_0,
                #[trigger] out@[i],
                r.1@.0,
                r.1@.1,
                *context,
                credential_scope,
                query_scope,
            ),
        r.0 matches Ok(out) ==> {
            &&& out@.len() == rows@.len()
            &&& forall|i: int|
                0 <= i < rows@.len() ==> (rows@[i] is None <==> (#[trigger] out@[i]) is None)
            &&& forall|i: int|
                0 <= i < rows@.len() && rows@[i] is Some ==> ((#[trigger] out@[i]) matches Some(
                    res,
                ) && result_answers(rows@[i]->Some_0@, res))
            &&& forall|i: int, j: int|
                0 <= i < rows@.len() && 0 <= j < rows@.len() && rows@[i] is Some && rows@[j] is Some
                    && row_identity(rows@[i]->Some_0@, *context, credential_scope, query_scope)
                    == row_identity(rows@[j]->Some_0@, *context, credential_scope, query_scope)
                    ==> #[trigger] out@[i] == #[trigger] out@[j]
        },
{
    let row_count = rows.len();
    let ghost all = rows@;
    let (work, null_rows) = chunk_work_items(
        rows,
        context,
        credential_scope,
        query_scope,
        function_invocation,
        data_chunk,
    );
    let valid_rows = work.len();
    let ghost items = work@;
    let groups = group_by_identity(work);
    proof {
        if groups@.len() > 0 {
            let f = crate::executor::first_index(items, groups@[0].identity@);
            assert(0 <= f < items.len());
        }
        if items.len() > 0 {
            assert(exists|g: int| 0 <= g < groups@.len() && groups@[g].identity@ == (#[trigger] items[0]).identity@);
        }
    }
    runtime.record_chunk_rows(query_scope, null_rows, valid_rows, groups.len());
    let mut executed: Vec<(RowTarget, JudgmentResult)> = Vec::new();
    let ghost mut results: Seq<JudgmentResult> = Seq::empty();
    let ghost mut trace = ExecutionTrace {
        capabilities: None,
        batch_limit: 0,
        results: Seq::empty(),
        sources: Seq::empty(),
        batches: Seq::empty(),
    };
    if groups.len() > 0 {
        let provider = match provider {
            Ok(p) => p,
            Err(message) => {
                return (
                    Err(JudgmentError::with_message(ErrorKind::Configuration, message)),
                    Ghost((groups@, trace)),
                );
            },
        };
        let limits = execution_limits(config, query_scope);
        let policy = cache_policy_for(config);
        if config.batch_enabled {
            let (outcome, record) = execute_batch_groups(
                groups.as_slice(),
                provider,
                runtime,
                config.batch_max_judgments,
                limits,
                policy.as_ref(),
            );
            executed = match outcome {
                Ok(executed) => executed,
                Err(error) => return (Err(error), Ghost((groups@, record@))),
            };
            proof {
                results = record@.results;
                trace = record@;
            }
        } else {
            let (outcome, record) = execute_groups(
                groups.as_slice(),
                provider,
                runtime,
                limits,
                policy.as_ref(),
            );
            executed = match outcome {
                Ok(executed) => executed,
                Err(error) => return (Err(error), Ghost((groups@, record@))),
            };
            proof {
                results = record@.results;
                trace = record@;
                assert forall|g: int| 0 <= g < groups@.len() implies source_ok(
                    groups@,
                    trace.batches,
                    g,
                    trace.sources[g],
                    trace.results[g],
                ) by {
                    assert(single_source_ok(groups@[g], trace.sources[g], trace.results[g]));
                }
            }
        }
    } else {
        proof {
            assert(covers(groups@, results, executed@));
        }
    }
    proof {
        lemma_chunk_rows(
            all,
            items,
            groups@,
            results,
            executed@,
            *context,
            credential_scope,
            query_scope,
            function_invocation,
            data_chunk,
        );
    }
    let out = results_by_row(row_count, &executed);
    proof {
        assert forall|i: int|
            0 <= i < all.len() && all[i] is Some implies ((#[trigger] out@[i]) matches Some(res)
                && result_answers(all[i]->Some_0@, res)) by {
            lemma_row_output(
                all,
                items,
                groups@,
                results,
                executed@,
                *context,
                credential_scope,
                query_scope,
                function_invocation,
                data_chunk,
                i,
            );
        }
        assert forall|i: int| 0 <= i < all.len() && all[i] is Some implies row_traced(
            all[i]->Some_0,
            #[trigger] out@[i],
            groups@,
            trace,
            *context,
            credential_scope,
            query_scope,
        ) by {
            let g = lemma_row_output(
                all,
                items,
                groups@,
                results,
                executed@,
                *context,
                credential_scope,
                query_scope,
                function_invocation,
                data_chunk,
                i,
            );
            assert(out@[i] == Some(trace.results[g]));
            assert(source_ok(groups@, trace.batches, g, trace.sources[g], trace.results[g]));
            assert(groups@[g].identity@ == row_identity(all[i]->Some_0@, *context, credential_scope, query_scope));
        }
        assert forall|i: int, j: int|
            0 <= i < all.len() && 0 <= j < all.len() && all[i] is Some && all[j] is Some
                && row_identity(all[i]->Some_0@, *context, credential_scope, query_scope)
                == row_identity(all[j]->Some_0@, *context, credential_scope, query_scope) implies #[trigger] out@[i]
            == #[trigger] out@[j] by {
            let gi = lemma_row_output(
                all,
                items,
                groups@,
                results,
                executed@,
                *context,
                credential_scope,
                query_scope,
                function_invocation,
                data_chunk,
                i,
            );
            let gj = lemma_row_output(
                all,
                items,
                groups@,
                results,
                executed@,
                *context,
                credential_scope,
                query_scope,
                function_invocation,
                data_chunk,
                j,
            );
            if gi != gj {
                if gi < gj {
                    assert(groups@[gi].identity@ != groups@[gj].identity@);
                } else {
                    assert(groups@[gj].identity@ != groups@[gi].identity@);
                }
            }
        }
    }
    (Ok(out), Ghost((groups@, trace)))
}

/// The result of each row of a chunk: the last result whose target is that row, none for a
/// row without one.
pub fn results_by_row(row_count: usize, executed: &Vec<(RowTarget, JudgmentResult)>) -> (r: Vec<
    Option<JudgmentResult>,
>)
    requires
        forall|k: int| 0 <= k < executed@.len() ==> (#[trigger] executed@[k]).0.row < row_count,
    ensures
        r@.len() == row_count,
        forall|row: int|
            0 <= row < row_count ==> #[trigger] r@[row] == last_result_for(executed@, row),
{
    let mut out: Vec<Option<JudgmentResult>> = Vec::new();
    let mut i: usize = 0;
    while i < row_count
        invariant
            i <= row_count,
            out@.len() == i,
            forall|row: int| 0 <= row < i ==> #[trigger] out@[row] is None,
        decreases row_count - i,
    {
        out.push(None);
        i = i + 1;
    }
    let mut k: usize = 0;
    while k < executed.len()
        invariant
            k <= executed@.len(),
            out@.len() == row_count,
            forall|k: int| 0 <= k < executed@.len() ==> (#[trigger] executed@[k]).0.row < row_count,
            forall|row: int|
                0 <= row < row_count ==> #[trigger] out@[row] == last_result_for(
                    executed@.subrange(0, k as int),
                    row,
                ),
        decreases executed@.len() - k,
    {
        let row = executed[k].0.row;
        let ghost before = out@;
        out.set(row, Some(executed[k].1.duplicate()));
        proof {
            let sub1 = executed@.subrange(0, k + 1);
            assert(sub1.drop_last() =~= executed@.subrange(0, k as int));
            assert forall|r: int| 0 <= r < row_count implies #[trigger] out@[r] == last_result_for(
                sub1,
                r,
            ) by {}
        }
        k = k + 1;
    }
    assert(executed@.subrange(0, executed@.len() as int) =~= executed@);
    out
}

/// The result of the last pair whose target is `row`.
pub open spec fn last_result_for(executed: Seq<(RowTarget, JudgmentResult)>, row: int) -> Option<
    JudgmentResult,
>
    decreases executed.len(),
{
    if executed.len() == 0 {
        None
    } else if executed.last().0.row == row {
        Some(executed.last().1)
    } else {
        last_result_for(executed.drop_last(), row)
    }
}

/// The status word of an outcome in the profile report.
pub fn status(outcome: QueryOutcome) -> (r: &'static str)
    ensures
        r@ == match outcome {
            QueryOutcome::Succeeded => "completed"@,
            QueryOutcome::Failed => "failed"@,
            QueryOutcome::Cancelled => "cancelled"@,
        },
{
    match outcome {
        QueryOutcome::Succeeded => "completed",
        QueryOutcome::Failed => "failed",
        QueryOutcome::Cancelled => "cancelled",
    }
}

} // verus!
