//! Query-local identity grouping, provider execution, and output row association.

use vstd::prelude::*;

use crate::cache::CachePolicy;
use crate::judgment::{
    batch_compatible, result_answers, validate_judgment_result, ErrorKind, IdentityView, JudgmentError,
    JudgmentIdentity, JudgmentRequest, JudgmentResult, QuestionKind, RequestView,
};
use crate::provider::{
    answer_acceptable, answer_keys, batch_valid, first_request_with_key, keys_distinct,
    request_keys, validate_batch_result, CapabilityStatus, Provider, ProviderAnswer,
    ProviderBatchResult, ProviderCapabilities,
};
use crate::runtime::ExecutionRuntime;
use crate::text::{copy_opt_text, decimal, push_char, push_decimal, same_opt_text};

verus! {

/// Identifies one scalar invocation's output location. Row numbers alone are not query-unique.
#[derive(Debug, Clone, Copy, PartialEq, Eq, Hash, Structural)]
pub struct RowTarget {
    pub function_invocation: u64,
    pub data_chunk: u64,
    pub row: usize,
}

/// One judgment asked by one row.
#[derive(Debug)]
pub struct JudgmentWork {
    pub identity: JudgmentIdentity,
    pub request: JudgmentRequest,
    pub target: RowTarget,
}

/// One distinct judgment and every row that asked it.
#[derive(Debug)]
pub struct JudgmentGroup {
    pub identity: JudgmentIdentity,
    pub request: JudgmentRequest,
    pub targets: Vec<RowTarget>,
}

#[derive(Debug, Clone, Copy, PartialEq, Eq, Structural)]
pub struct ExecutionLimits {
    pub query_scope: u64,
    pub max_inflight: usize,
    pub max_request_bytes: usize,
}

/// The targets of the work items that ask `id`, in input order.
pub open spec fn work_targets(work: Seq<JudgmentWork>, id: IdentityView) -> Seq<RowTarget>
    decreases work.len(),
{
    if work.len() == 0 {
        Seq::empty()
    } else if work.last().identity@ == id {
        work_targets(work.drop_last(), id).push(work.last().target)
    } else {
        work_targets(work.drop_last(), id)
    }
}

/// Index of the first work item that asks `id`, or -1.
pub open spec fn first_index(work: Seq<JudgmentWork>, id: IdentityView) -> int
    decreases work.len(),
{
    if work.len() == 0 {
        -1
    } else if first_index(work.drop_last(), id) >= 0 {
        first_index(work.drop_last(), id)
    } else if work.last().identity@ == id {
        work.len() - 1
    } else {
        -1
    }
}

/// `groups` is the grouping of `work` by identity: one group per distinct identity, in order of
/// first occurrence, carrying the request of that first occurrence and every target asking it.
pub open spec fn is_grouping(work: Seq<JudgmentWork>, groups: Seq<JudgmentGroup>) -> bool {
    &&& forall|g1: int, g2: int|
        0 <= g1 < g2 < groups.len() ==> first_index(work, groups[g1].identity@) < first_index(
            work,
            groups[g2].identity@,
        )
    &&& forall|g1: int, g2: int|
        0 <= g1 < g2 < groups.len() ==> groups[g1].identity@ != groups[g2].identity@
    &&& forall|g: int|
        0 <= g < groups.len() ==> {
            let f = first_index(work, #[trigger] groups[g].identity@);
            &&& 0 <= f < work.len()
            &&& groups[g].request@ == work[f].request@
            &&& groups[g].targets@ == work_targets(work, groups[g].identity@)
        }
    &&& forall|k: int|
        0 <= k < work.len() ==> exists|g: int|
            0 <= g < groups.len() && groups[g].identity@ == (#[trigger] work[k]).identity@
}

pub(crate) proof fn lemma_first_index(work: Seq<JudgmentWork>, id: IdentityView)
    ensures
        -1 <= first_index(work, id) < work.len(),
        first_index(work, id) >= 0 ==> work[first_index(work, id)].identity@ == id,
        forall|k: int| 0 <= k < first_index(work, id) ==> (#[trigger] work[k]).identity@ != id,
        first_index(work, id) == -1 ==> forall|k: int|
            0 <= k < work.len() ==> (#[trigger] work[k]).identity@ != id,
        first_index(work, id) == -1 ==> work_targets(work, id) == Seq::<RowTarget>::empty(),
    decreases work.len(),
{
    if work.len() > 0 {
        let d = work.drop_last();
        lemma_first_index(d, id);
        assert forall|k: int| 0 <= k < d.len() implies d[k] == work[k] by {}
    }
}

proof fn lemma_prefix_step(work: Seq<JudgmentWork>, k: int, id: IdentityView)
    requires
        0 <= k < work.len(),
    ensures
        first_index(work.subrange(0, k + 1), id) == if first_index(work.subrange(0, k), id)
            >= 0 {
            first_index(work.subrange(0, k), id)
        } else if work[k].identity@ == id {
            k
        } else {
            -1
        },
        work_targets(work.subrange(0, k + 1), id) == if work[k].identity@ == id {
            work_targets(work.subrange(0, k), id).push(work[k].target)
        } else {
            work_targets(work.subrange(0, k), id)
        },
{
    assert(work.subrange(0, k + 1).drop_last() =~= work.subrange(0, k));
}

/// Moves the items of `v` into a vector in reverse order.
pub(crate) fn reversed<T>(v: Vec<T>) -> (r: Vec<T>)
    ensures
        r@ == v@.reverse(),
{
    let mut rest = v;
    let ghost all = v@;
    let mut out: Vec<T> = Vec::new();
    while rest.len() > 0
        invariant
            out@.len() + rest@.len() == all.len(),
            rest@ == all.subrange(0, rest@.len() as int),
            forall|k: int| 0 <= k < out@.len() ==> #[trigger] out@[k] == all[all.len() - 1 - k],
        decreases rest@.len(),
    {
        let e = rest.pop().unwrap();
        out.push(e);
    }
    assert(out@ =~= all.reverse());
    out
}

/// Position of the group for `identity`, if there is one.
fn find_group(groups: &Vec<JudgmentGroup>, identity: &JudgmentIdentity) -> (r: Option<usize>)
    ensures
        r matches Some(i) ==> i < groups@.len() && groups@[i as int].identity@ == identity@,
        r is None ==> forall|g: int|
            0 <= g < groups@.len() ==> (#[trigger] groups@[g]).identity@ != identity@,
{
    let mut i: usize = 0;
    while i < groups.len()
        invariant
            i <= groups@.len(),
            forall|g: int| 0 <= g < i ==> (#[trigger] groups@[g]).identity@ != identity@,
        decreases groups@.len() - i,
    {
        if groups[i].identity.same_identity(identity) {
            return Some(i);
        }
        i = i + 1;
    }
    None
}

#[verifier::spinoff_prover]
#[verifier::rlimit(40)]
proof fn lemma_grouping_existing(
    all: Seq<JudgmentWork>,
    k: int,
    old_groups: Seq<JudgmentGroup>,
    groups: Seq<JudgmentGroup>,
    i: int,
)
    requires
        0 <= k < all.len(),
        0 <= i < old_groups.len(),
        is_grouping(all.subrange(0, k), old_groups),
        old_groups[i].identity@ == all[k].identity@,
        groups.len() == old_groups.len(),
        groups[i].identity == old_groups[i].identity,
        groups[i].request == old_groups[i].request,
        groups[i].targets@ == old_groups[i].targets@.push(all[k].target),
        forall|g: int| 0 <= g < groups.len() && g != i ==> groups[g] == old_groups[g],
    ensures
        is_grouping(all.subrange(0, k + 1), groups),
{
    let before = all.subrange(0, k);
    let after = all.subrange(0, k + 1);
    let id = all[k].identity@;
    assert forall|q: int| 0 <= q < k implies after[q] == before[q] by {}
    assert forall|g: int| 0 <= g < groups.len() implies {
        let f = first_index(after, #[trigger] groups[g].identity@);
        &&& 0 <= f < after.len()
        &&& groups[g].request@ == after[f].request@
        &&& groups[g].targets@ == work_targets(after, groups[g].identity@)
    } by {
        lemma_prefix_step(all, k, groups[g].identity@);
        lemma_first_index(before, groups[g].identity@);
        if g != i {
            assert(old_groups[g].identity@ != id);
        }
    }
    assert forall|g1: int, g2: int| 0 <= g1 < g2 < groups.len() implies first_index(
        after,
        groups[g1].identity@,
    ) < first_index(after, groups[g2].identity@) by {
        lemma_prefix_step(all, k, groups[g1].identity@);
        lemma_prefix_step(all, k, groups[g2].identity@);
        lemma_first_index(before, groups[g1].identity@);
        lemma_first_index(before, groups[g2].identity@);
        assert(groups[g1].identity@ == old_groups[g1].identity@);
        assert(groups[g2].identity@ == old_groups[g2].identity@);
    }
    assert forall|g1: int, g2: int| 0 <= g1 < g2 < groups.len() implies groups[g1].identity@
        != groups[g2].identity@ by {
        assert(groups[g1].identity@ == old_groups[g1].identity@);
        assert(groups[g2].identity@ == old_groups[g2].identity@);
    }
    assert forall|q: int| 0 <= q < after.len() implies exists|g: int|
        0 <= g < groups.len() && groups[g].identity@ == (#[trigger] after[q]).identity@ by {
        if q < k {
            assert(before[q] == after[q]);
            let g = choose|g: int|
                0 <= g < old_groups.len() && old_groups[g].identity@ == (#[trigger] before[q]).identity@;
            assert(groups[g].identity@ == old_groups[g].identity@);
        } else {
            assert(groups[i].identity@ == id);
        }
    }
}

#[verifier::spinoff_prover]
#[verifier::rlimit(40)]
proof fn lemma_grouping_new(all: Seq<JudgmentWork>, k: int, old_groups: Seq<JudgmentGroup>, groups: Seq<JudgmentGroup>)
    requires
        0 <= k < all.len(),
        is_grouping(all.subrange(0, k), old_groups),
        forall|g: int| 0 <= g < old_groups.len() ==> (#[trigger] old_groups[g]).identity@ != all[k].identity@,
        groups.len() == old_groups.len() + 1,
        forall|g: int| 0 <= g < old_groups.len() ==> groups[g] == old_groups[g],
        groups.last().identity@ == all[k].identity@,
        groups.last().request@ == all[k].request@,
        groups.last().targets@ == seq![all[k].target],
    ensures
        is_grouping(all.subrange(0, k + 1), groups),
{
    let before = all.subrange(0, k);
    let after = all.subrange(0, k + 1);
    let id = all[k].identity@;
    let n = old_groups.len() as int;
    assert forall|q: int| 0 <= q < k implies after[q] == before[q] by {}
    lemma_prefix_step(all, k, id);
    lemma_first_index(before, id);
    if first_index(before, id) >= 0 {
        let f = first_index(before, id);
        let g = choose|g: int|
            0 <= g < old_groups.len() && old_groups[g].identity@ == (#[trigger] before[f]).identity@;
        assert(old_groups[g].identity@ == id);
    }
    assert(first_index(after, id) == k);
    assert(work_targets(after, id) =~= seq![all[k].target]);
    assert forall|g: int| 0 <= g < groups.len() implies {
        let f = first_index(after, #[trigger] groups[g].identity@);
        &&& 0 <= f < after.len()
        &&& groups[g].request@ == after[f].request@
        &&& groups[g].targets@ == work_targets(after, groups[g].identity@)
    } by {
        lemma_prefix_step(all, k, groups[g].identity@);
        lemma_first_index(before, groups[g].identity@);
        if g < n {
            assert(groups[g] == old_groups[g]);
            assert(old_groups[g].identity@ != id);
        }
    }
    assert forall|g1: int, g2: int| 0 <= g1 < g2 < groups.len() implies first_index(
        after,
        groups[g1].identity@,
    ) < first_index(after, groups[g2].identity@) by {
        lemma_prefix_step(all, k, groups[g1].identity@);
        lemma_prefix_step(all, k, groups[g2].identity@);
        lemma_first_index(before, groups[g1].identity@);
        lemma_first_index(before, groups[g2].identity@);
        assert(groups[g1] == old_groups[g1]);
        assert(old_groups[g1].identity@ != id);
        if g2 < n {
            assert(groups[g2] == old_groups[g2]);
        }
    }
    assert forall|g1: int, g2: int| 0 <= g1 < g2 < groups.len() implies groups[g1].identity@
        != groups[g2].identity@ by {
        assert(groups[g1] == old_groups[g1]);
        if g2 < n {
            assert(groups[g2] == old_groups[g2]);
        } else {
            assert(old_groups[g1].identity@ != id);
        }
    }
    assert forall|q: int| 0 <= q < after.len() implies exists|g: int|
        0 <= g < groups.len() && groups[g].identity@ == (#[trigger] after[q]).identity@ by {
        if q < k {
            assert(before[q] == after[q]);
            let g = choose|g: int|
                0 <= g < old_groups.len() && old_groups[g].identity@ == (#[trigger] before[q]).identity@;
            assert(groups[g] == old_groups[g]);
        } else {
            assert(groups[n].identity@ == id);
        }
    }
}

/// Adds the work item at position `k` of `all` to the grouping of the items before it.
#[verifier::spinoff_prover]
#[verifier::rlimit(40)]
fn add_to_grouping(groups: &mut Vec<JudgmentGroup>, item: JudgmentWork, Ghost(all): Ghost<Seq<JudgmentWork>>, Ghost(k): Ghost<int>)
    requires
        0 <= k < all.len(),
        item == all[k],
        is_grouping(all.subrange(0, k), old(groups)@),
    ensures
        is_grouping(all.subrange(0, k + 1), final(groups)@),
{
    match find_group(groups, &item.identity) {
        Some(i) => {
            let ghost old_groups = groups@;
            let mut group = groups.remove(i);
            group.targets.push(item.target);
            groups.insert(i, group);
            proof {
                lemma_grouping_existing(all, k, old_groups, groups@, i as int);
            }
        },
        None => {
            let ghost old_groups = groups@;
            let mut targets: Vec<RowTarget> = Vec::new();
            targets.push(item.target);
            groups.push(JudgmentGroup { identity: item.identity, request: item.request, targets });
            proof {
                lemma_grouping_new(all, k, old_groups, groups@);
            }
        },
    }
}

/// Groups identical judgments while retaining every input row target. Identities are compared
/// in full, field by field.
pub fn group_by_identity(work: Vec<JudgmentWork>) -> (r: Vec<JudgmentGroup>)
    ensures
        is_grouping(work@, r@),
{
    let ghost all = work@;
    let n = work.len();
    let mut rest = reversed(work);
    let mut groups: Vec<JudgmentGroup> = Vec::new();
    assert(all.subrange(0, 0) =~= Seq::<JudgmentWork>::empty());
    while rest.len() > 0
        invariant
            n == all.len(),
            rest@.len() <= n,
            forall|q: int| 0 <= q < rest@.len() ==> #[trigger] rest@[q] == all[n - 1 - q],
            is_grouping(all.subrange(0, n - rest@.len()), groups@),
        decreases rest@.len(),
    {
        let ghost k: int = n - rest@.len();
        let item = rest.pop().unwrap();
        add_to_grouping(&mut groups, item, Ghost(all), Ghost(k));
    }
    assert(all.subrange(0, n as int) =~= all);
    groups
}

/// Every target of one group paired with the group's result.
pub open spec fn labelled(targets: Seq<RowTarget>, result: JudgmentResult) -> Seq<
    (RowTarget, JudgmentResult),
> {
    targets.map_values(|t: RowTarget| (t, result))
}

/// The targets of each group in order, each paired with the result at the group's position.
pub open spec fn expansion(groups: Seq<JudgmentGroup>, results: Seq<JudgmentResult>) -> Seq<
    (RowTarget, JudgmentResult),
>
    decreases groups.len(),
{
    if groups.len() == 0 {
        Seq::empty()
    } else {
        expansion(groups.drop_last(), results) + labelled(
            groups.last().targets@,
            results[groups.len() - 1],
        )
    }
}

proof fn lemma_expansion_prefix(
    groups: Seq<JudgmentGroup>,
    r1: Seq<JudgmentResult>,
    r2: Seq<JudgmentResult>,
)
    requires
        r1.len() >= groups.len(),
        r2.len() >= groups.len(),
        forall|g: int| 0 <= g < groups.len() ==> r1[g] == r2[g],
    ensures
        expansion(groups, r1) == expansion(groups, r2),
    decreases groups.len(),
{
    if groups.len() > 0 {
        lemma_expansion_prefix(groups.drop_last(), r1, r2);
    }
}

/// `pair` is a target of some group paired with that group's result.
pub open spec fn from_group(
    groups: Seq<JudgmentGroup>,
    results: Seq<JudgmentResult>,
    pair: (RowTarget, JudgmentResult),
) -> bool {
    exists|g: int|
        0 <= g < groups.len() && groups[g].targets@.contains(pair.0) && pair.1 == results[g]
}

/// Each group's result answers the group's request.
pub open spec fn answered(groups: Seq<JudgmentGroup>, results: Seq<JudgmentResult>) -> bool {
    forall|g: int| 0 <= g < groups.len() ==> result_answers(groups[g].request@, #[trigger] results[g])
}

/// `out` gives every target of every group the group's result, and nothing else; each result
/// answers its group's request.
pub open spec fn covers(
    groups: Seq<JudgmentGroup>,
    results: Seq<JudgmentResult>,
    out: Seq<(RowTarget, JudgmentResult)>,
) -> bool {
    &&& results.len() == groups.len()
    &&& answered(groups, results)
    &&& forall|k: int| 0 <= k < out.len() ==> from_group(groups, results, #[trigger] out[k])
    &&& forall|g: int, j: int|
        0 <= g < groups.len() && 0 <= j < groups[g].targets@.len() ==> out.contains(
            (#[trigger] groups[g].targets@[j], results[g]),
        )
}

/// Appends every target of a group paired with `result`.
fn push_labelled(
    out: &mut Vec<(RowTarget, JudgmentResult)>,
    targets: &Vec<RowTarget>,
    result: &JudgmentResult,
)
    ensures
        final(out)@ == old(out)@ + labelled(targets@, *result),
{
    let ghost start = out@;
    let mut i: usize = 0;
    while i < targets.len()
        invariant
            i <= targets@.len(),
            out@ == start + labelled(targets@.subrange(0, i as int), *result),
        decreases targets@.len() - i,
    {
        let ghost before = out@;
        out.push((targets[i], result.duplicate()));
        assert(labelled(targets@.subrange(0, i + 1), *result) =~= labelled(
            targets@.subrange(0, i as int),
            *result,
        ).push((targets@[i as int], *result)));
        assert(out@ =~= start + labelled(targets@.subrange(0, i + 1), *result));
        i = i + 1;
    }
    assert(targets@.subrange(0, targets@.len() as int) =~= targets@);
}

/// The correlation key of the request at position `b` of a provider batch.
pub open spec fn batch_key(b: nat) -> Seq<char> {
    seq!['r'] + decimal(b)
}

fn batch_key_string(b: usize) -> (r: String)
    ensures
        r@ == batch_key(b as nat),
{
    let mut key = String::new();
    push_char(&mut key, 'r');
    push_decimal(&mut key, b as u128);
    assert(key@ =~= batch_key(b as nat));
    key
}

/// The group index of batch position `b` for `indices` followed by `additional`.
pub open spec fn batch_member(indices: Seq<usize>, additional: Option<usize>, b: int) -> int {
    if b < indices.len() {
        indices[b] as int
    } else {
        additional.unwrap() as int
    }
}

/// The requests of the listed groups (and of `additional`), keyed by their batch position.
fn requests_for_groups(groups: &[JudgmentGroup], indices: &[usize], additional: Option<usize>) -> (r:
    Vec<JudgmentRequest>)
    requires
        forall|b: int| 0 <= b < indices@.len() ==> (#[trigger] indices@[b]) < groups@.len(),
        additional matches Some(a) ==> a < groups@.len(),
    ensures
        r@.len() == indices@.len() + if additional is Some {
            1int
        } else {
            0int
        },
        forall|b: int|
            0 <= b < r@.len() ==> (#[trigger] r@[b])@ == (RequestView {
                request_key: batch_key(b as nat),
                ..groups@[batch_member(indices@, additional, b)].request@
            }),
{
    let mut out: Vec<JudgmentRequest> = Vec::new();
    let mut b: usize = 0;
    while b < indices.len()
        invariant
            b <= indices@.len(),
            out@.len() == b,
            forall|b: int| 0 <= b < indices@.len() ==> (#[trigger] indices@[b]) < groups@.len(),
            forall|q: int|
                0 <= q < b ==> (#[trigger] out@[q])@ == (RequestView {
                    request_key: batch_key(q as nat),
                    ..groups@[batch_member(indices@, additional, q)].request@
                }),
        decreases indices@.len() - b,
    {
        let key = batch_key_string(b);
        out.push(groups[indices[b]].request.with_key(key));
        b = b + 1;
    }
    if let Some(a) = additional {
        let key = batch_key_string(b);
        out.push(groups[a].request.with_key(key));
    }
    out
}

/// The cache identity of a group: its complete identity pinned to the provider's stable model,
/// or nothing when the provider has no stable model for the requested one.
fn cache_identity_for<P: Provider + ?Sized>(group: &JudgmentGroup, provider: &P) -> (r: Option<
    JudgmentIdentity,
>)
    ensures
        r matches Some(id) ==> id@.effective_model is Some && id@ == (IdentityView {
            effective_model: id@.effective_model,
            unresolved_model_scope: None,
            ..group.identity@
        }),
{
    match provider.cache_model_identity(group.identity.requested_model.as_str()) {
        None => None,
        Some(model) => {
            let mut identity = group.identity.duplicate();
            identity.effective_model = Some(model);
            identity.unresolved_model_scope = None;
            Some(identity)
        },
    }
}

/// Whether the provider still names `expected_model` as the stable model of the group.
fn provider_model_is_stable<P: Provider + ?Sized>(
    provider: &P,
    group: &JudgmentGroup,
    expected_model: &Option<String>,
) -> (r: bool)
    ensures
        r ==> expected_model is Some,
{
    match expected_model {
        None => false,
        Some(_) => {
            let current = provider.cache_model_identity(group.identity.requested_model.as_str());
            same_opt_text(&current, expected_model)
        },
    }
}

/// A single-request batch holding an equal copy of `request`.
fn single_request(request: &JudgmentRequest) -> (r: Vec<JudgmentRequest>)
    ensures
        r@.len() == 1,
        r@[0]@ == request@,
{
    let mut out: Vec<JudgmentRequest> = Vec::new();
    out.push(request.with_key(request.request_key.clone()));
    out
}

/// One provider attempt for one group: permit, attempt accounting, the call, response
/// accounting and validation. Returns the outcome, whether the attempt was made, whether a
/// response arrived, and the provider time.
fn attempt_single<P: Provider + ?Sized, R: ExecutionRuntime + ?Sized>(
    group: &JudgmentGroup,
    provider: &P,
    runtime: &R,
    limits: ExecutionLimits,
    external: bool,
) -> (r: (
    Result<(JudgmentResult, Option<String>), JudgmentError>,
    bool,
    bool,
    u64,
    Ghost<(Seq<ProviderAnswer>, Option<Seq<char>>)>,
))
    ensures
        r.0 matches Ok(ok) ==> {
            &&& result_answers(group.request@, ok.0)
            &&& r.4@.0.len() == 1
            &&& r.4@.0[0].request_key@ == group.request.request_key@
            &&& ok.0 == r.4@.0[0].result
            &&& ok.1.deep_view() == r.4@.1
        },
        r.0 is Ok ==> r.1 && r.2,
{
    let _permit = match runtime.acquire_permit(limits.query_scope, limits.max_inflight) {
        Ok(permit) => permit,
        Err(error) => return (Err(error), false, false, 0, Ghost((Seq::empty(), None))),
    };
    runtime.record_provider_attempt(limits.query_scope, 1, external);
    let started = runtime.now_ns();
    let response = provider.judge_with_metadata(&group.request);
    let elapsed = runtime.now_ns().saturating_sub(started);
    let response = match response {
        Ok(response) => response,
        Err(error) => return (Err(error), true, false, elapsed, Ghost((Seq::empty(), None))),
    };
    runtime.record_provider_response(limits.query_scope, &response.metadata, elapsed, external);
    let ghost seen = (response.answers@, response.metadata.effective_model.deep_view());
    match crate::functions::row_result(&group.request, &response) {
        Ok(result) => {
            let effective_model = copy_opt_text(&response.metadata.effective_model);
            (Ok((result, effective_model)), true, true, elapsed, Ghost(seen))
        },
        Err(error) => (Err(error), true, true, elapsed, Ghost(seen)),
    }
}

/// Where a group's result came from, as recorded during execution.
pub enum GroupSource {
    /// Not answered (yet).
    Pending,
    /// The entry the host's cache returned.
    Cached(JudgmentResult),
    /// The outcome another invocation of this query published for the same judgment.
    Shared(JudgmentResult),
    /// A single-judgment response: its answers and the effective model it reported.
    Single(Seq<ProviderAnswer>, Option<Seq<char>>),
    /// Position `q` of recorded batch `k`.
    Batch(int, int),
}

/// One batch sent to the provider: the groups it judges (by position), the requests sent
/// (in that order), the answers received, the results taken from them and the provider's byte
/// estimate for the batch.
pub struct SentBatch {
    pub members: Seq<usize>,
    pub requests: Seq<JudgmentRequest>,
    pub answers: Seq<ProviderAnswer>,
    pub results: Seq<JudgmentResult>,
    /// The provider's byte estimate for these requests, taken before the batch was sent.
    pub estimate: usize,
}

/// A record of one execution: the capabilities the provider reported and the batch limit
/// derived from them, each group's result and its source, and the batches sent, in order.
pub struct ExecutionTrace {
    pub capabilities: Option<ProviderCapabilities>,
    pub batch_limit: usize,
    pub results: Seq<JudgmentResult>,
    pub sources: Seq<GroupSource>,
    pub batches: Seq<SentBatch>,
}

/// `result` is what `source` gives for `group`: the cached or shared value itself, or the
/// result of the single answer, carried under the request's key.
pub open spec fn single_source_ok(group: JudgmentGroup, source: GroupSource, result: JudgmentResult) -> bool {
    match source {
        GroupSource::Cached(r) => result == r,
        GroupSource::Shared(r) => result == r,
        GroupSource::Single(answers, _) => answers.len() == 1 && answers[0].request_key@
            == group.request.request_key@ && result == answers[0].result,
        _ => false,
    }
}

/// `result` is what `source` gives for group `g`; a batch source names a recorded batch in
/// which `g` is the member at that position, and the result taken there.
pub open spec fn source_ok(
    groups: Seq<JudgmentGroup>,
    batches: Seq<SentBatch>,
    g: int,
    source: GroupSource,
    result: JudgmentResult,
) -> bool {
    match source {
        GroupSource::Batch(k, q) => 0 <= k < batches.len() && 0 <= q < batches[k].members.len()
            && batches[k].members[q] == g && batches[k].results[q] == result,
        _ => single_source_ok(groups[g], source, result),
    }
}

/// A sent batch: between one and `limit` groups sharing one question context, estimated within
/// `max_bytes`, requests keyed `r0`, `r1`, ... in member order, and results taken from the
/// answers by key.
pub open spec fn batch_sent_ok(
    groups: Seq<JudgmentGroup>,
    limit: usize,
    max_bytes: usize,
    b: SentBatch,
) -> bool {
    &&& 0 < b.members.len() <= limit
    &&& b.estimate <= max_bytes
    &&& b.requests.len() == b.members.len()
    &&& forall|q: int|
        0 <= q < b.members.len() ==> (#[trigger] b.members[q]) < groups.len() && b.requests[q]@
            == (RequestView { request_key: batch_key(q as nat), ..groups[b.members[q] as int].request@ })
    &&& forall|q1: int, q2: int|
        0 <= q1 < b.members.len() && 0 <= q2 < b.members.len() ==> batch_compatible(
            groups[(#[trigger] b.members[q1]) as int].identity@,
            groups[(#[trigger] b.members[q2]) as int].identity@,
        )
    &&& results_by_key(b.requests, b.answers, b.results)
}

/// Runs one group: a judgment owned elsewhere in this query is awaited; an owned one is
/// served from the cache when the host has it, and otherwise asked of the provider alone. The
/// ghost record gives the source of the result and the cache key a provider result was
/// offered to the cache under, if any.
fn execute_one_group<P: Provider + ?Sized, R: ExecutionRuntime + ?Sized>(
    group: &JudgmentGroup,
    provider: &P,
    runtime: &R,
    limits: ExecutionLimits,
    cache_policy: Option<&CachePolicy>,
) -> (r: (Result<JudgmentResult, JudgmentError>, Ghost<(GroupSource, Option<IdentityView>)>))
    ensures
        r.0 matches Ok(result) ==> result_answers(group.request@, result) && single_source_ok(
            *group,
            r.1@.0,
            result,
        ),
        r.1@.1 matches Some(id) ==> {
            &&& cache_policy is Some
            &&& r.0 is Ok
            &&& r.1@.0 matches GroupSource::Single(_, model) && model == id.effective_model
            &&& id.effective_model is Some
            &&& id == (IdentityView {
                effective_model: id.effective_model,
                unresolved_model_scope: None,
                ..group.identity@
            })
        },
{
    let ghost none = (GroupSource::Pending, None::<IdentityView>);
    let cache_identity = match cache_policy {
        Some(_) => cache_identity_for(group, provider),
        None => None,
    };
    let (entry, owns_request) = match runtime.claim_query_entry(limits.query_scope, &group.identity) {
        Ok(claim) => claim,
        Err(error) => return (Err(error), Ghost(none)),
    };
    let cancelled = match runtime.query_cancellation(limits.query_scope) {
        Ok(cancelled) => cancelled,
        Err(error) => return (Err(error), Ghost(none)),
    };
    if !owns_request {
        let shared = match runtime.wait_entry(&entry, &cancelled) {
            Ok(shared) => shared,
            Err(error) => return (Err(error), Ghost(none)),
        };
        if let Err(error) = validate_judgment_result(&group.request, &shared) {
            return (Err(error), Ghost(none));
        }
        let ghost source = GroupSource::Shared(shared);
        return (Ok(shared), Ghost((source, None)));
    }
    if let Some(policy) = cache_policy {
        if let Err(error) = policy.validate() {
            runtime.complete_entry(&entry, Err(error.duplicate()));
            return (Err(error), Ghost(none));
        }
        let now = runtime.now_ns();
        let cached = match &cache_identity {
            Some(identity) => runtime.cache_lookup(Some(identity), now, policy),
            None => runtime.cache_lookup(None, now, policy),
        };
        if let Some(result) = cached {
            if let Err(error) = validate_judgment_result(&group.request, &result) {
                runtime.complete_entry(&entry, Err(error.duplicate()));
                return (Err(error), Ghost(none));
            }
            runtime.record_cache_hit(limits.query_scope);
            runtime.complete_entry(&entry, Ok(result.duplicate()));
            let ghost source = GroupSource::Cached(result);
            return (Ok(result), Ghost((source, None)));
        }
    }
    let single = single_request(&group.request);
    if provider.estimate_request_bytes(single.as_slice()) > limits.max_request_bytes {
        let error = JudgmentError::configuration("one judgment exceeds duckjeu_max_request_bytes");
        runtime.complete_entry(&entry, Err(error.duplicate()));
        return (Err(error), Ghost(none));
    }
    let external = provider.makes_external_request();
    let (attempt, attempted, response_received, elapsed, seen) = attempt_single(
        group,
        provider,
        runtime,
        limits,
        external,
    );
    match attempt {
        Ok((result, effective_model)) => {
            let ghost source = GroupSource::Single(seen@.0, seen@.1);
            let ghost mut inserted: Option<IdentityView> = None;
            if let (Some(identity), Some(policy)) = (&cache_identity, cache_policy) {
                if same_opt_text(&effective_model, &identity.effective_model)
                    && provider_model_is_stable(provider, group, &identity.effective_model) {
                    let now = runtime.now_ns();
                    runtime.cache_insert(identity.duplicate(), result.duplicate(), now, policy);
                    proof {
                        inserted = Some(identity@);
                    }
                }
            }
            runtime.complete_entry(&entry, Ok(result.duplicate()));
            (Ok(result), Ghost((source, inserted)))
        },
        Err(error) => {
            if attempted && external {
                runtime.record_failed_request(limits.query_scope);
                if !response_received {
                    runtime.record_provider_failure(limits.query_scope, elapsed, external);
                }
            }
            runtime.complete_entry(&entry, Err(error.duplicate()));
            (Err(error), Ghost(none))
        },
    }
}

/// Executes each group once, shares its in-flight or completed entry across scalar instances
/// in this query, and expands the result back to every target, group by group. The ghost
/// record gives each group's result and its source.
pub fn execute_groups<P: Provider + ?Sized, R: ExecutionRuntime + ?Sized>(
    groups: &[JudgmentGroup],
    provider: &P,
    runtime: &R,
    limits: ExecutionLimits,
    cache_policy: Option<&CachePolicy>,
) -> (r: (Result<Vec<(RowTarget, JudgmentResult)>, JudgmentError>, Ghost<ExecutionTrace>))
    ensures
        limits.max_request_bytes == 0 ==> (r.0 matches Err(e) && e.error_kind()
            == ErrorKind::Configuration && e.error_text()
            == "duckjeu_max_request_bytes must be positive"@),
        groups@.len() == 0 && limits.max_request_bytes > 0 ==> (r.0 matches Ok(out) && out@.len()
            == 0),
        r.1@.batches.len() == 0,
        r.0 matches Ok(out) ==> {
            &&& r.1@.results.len() == groups@.len()
            &&& r.1@.sources.len() == groups@.len()
            &&& out@ == expansion(groups@, r.1@.results)
            &&& covers(groups@, r.1@.results, out@)
            &&& forall|g: int|
                0 <= g < groups@.len() ==> single_source_ok(
                    groups@[g],
                    #[trigger] r.1@.sources[g],
                    r.1@.results[g],
                )
        },
{
    let ghost mut results: Seq<JudgmentResult> = Seq::empty();
    let ghost mut sources: Seq<GroupSource> = Seq::empty();
    let ghost trace0 = ExecutionTrace {
        capabilities: None,
        batch_limit: 0,
        results: Seq::empty(),
        sources: Seq::empty(),
        batches: Seq::empty(),
    };
    if limits.max_request_bytes == 0 {
        return (
            Err(JudgmentError::configuration("duckjeu_max_request_bytes must be positive")),
            Ghost(trace0),
        );
    }
    let mut output: Vec<(RowTarget, JudgmentResult)> = Vec::new();
    let mut i: usize = 0;
    assert(groups@.subrange(0, 0) =~= Seq::<JudgmentGroup>::empty());
    while i < groups.len()
        invariant
            limits.max_request_bytes > 0,
            i <= groups@.len(),
            results.len() == i,
            sources.len() == i,
            trace0.batches.len() == 0,
            output@ == expansion(groups@.subrange(0, i as int), results),
            forall|g: int| 0 <= g < i ==> result_answers(groups@[g].request@, #[trigger] results[g]),
            forall|g: int|
                0 <= g < i ==> single_source_ok(groups@[g], #[trigger] sources[g], results[g]),
        decreases groups@.len() - i,
    {
        let (outcome, record) = execute_one_group(&groups[i], provider, runtime, limits, cache_policy);
        let result = match outcome {
            Ok(result) => result,
            Err(error) => return (Err(error), Ghost(trace0)),
        };
        let ghost before = output@;
        push_labelled(&mut output, &groups[i].targets, &result);
        proof {
            let sub = groups@.subrange(0, i + 1);
            let next = results.push(result);
            assert(sub.drop_last() =~= groups@.subrange(0, i as int));
            lemma_expansion_prefix(groups@.subrange(0, i as int), results, next);
            assert(expansion(sub, next) == expansion(groups@.subrange(0, i as int), next)
                + labelled(groups@[i as int].targets@, result));
            results = next;
            sources = sources.push(record@.0);
        }
        i = i + 1;
    }
    assert(groups@.subrange(0, groups@.len() as int) =~= groups@);
    proof {
        lemma_expansion_covers(groups@, results);
    }
    let ghost trace = ExecutionTrace { results, sources, ..trace0 };
    (Ok(output), Ghost(trace))
}

/// The judgment limit of one provider batch: the configured limit, lowered to the provider's
/// own limit when it declares one. Batching needs verified multi-state support and positive
/// limits.
pub fn batch_judgment_limit(
    capabilities: &ProviderCapabilities,
    max_judgments: usize,
    max_request_bytes: usize,
) -> (r: Result<usize, JudgmentError>)
    ensures
        capabilities.multi_state_batch != CapabilityStatus::Verified ==> (r matches Err(e)
            && e.error_kind() == ErrorKind::Configuration && e.error_text()
            == "provider multi-state batch capability is not verified"@),
        capabilities.multi_state_batch == CapabilityStatus::Verified && (max_judgments == 0
            || max_request_bytes == 0) ==> (r matches Err(e) && e.error_kind()
            == ErrorKind::Configuration && e.error_text()
            == "batch judgment and request byte limits must be positive"@),
        capabilities.multi_state_batch == CapabilityStatus::Verified && max_judgments > 0
            && max_request_bytes > 0 ==> match capabilities.max_batch_judgments {
            Some(limit) => if limit == 0 {
                r matches Err(e) && e.error_kind() == ErrorKind::Configuration && e.error_text()
                    == "provider advertises a zero judgment batch limit"@
            } else {
                r == Ok::<usize, JudgmentError>(
                    if limit < max_judgments {
                        limit
                    } else {
                        max_judgments
                    },
                )
            },
            None => r == Ok::<usize, JudgmentError>(max_judgments),
        },
{
    if capabilities.multi_state_batch != CapabilityStatus::Verified {
        return Err(
            JudgmentError::configuration("provider multi-state batch capability is not verified"),
        );
    }
    if max_judgments == 0 || max_request_bytes == 0 {
        return Err(
            JudgmentError::configuration("batch judgment and request byte limits must be positive"),
        );
    }
    let limit = match capabilities.max_batch_judgments {
        Some(service_limit) => if service_limit < max_judgments {
            service_limit
        } else {
            max_judgments
        },
        None => max_judgments,
    };
    if limit == 0 {
        return Err(JudgmentError::configuration("provider advertises a zero judgment batch limit"));
    }
    Ok(limit)
}

/// A judgment may join a batch only when its question type is verified and its choice count
/// is within the provider's declared limit.
pub fn check_batch_capability(capabilities: &ProviderCapabilities, request: &JudgmentRequest) -> (r:
    Result<(), JudgmentError>)
    ensures
        ({
            let status = match request.kind {
                QuestionKind::Noul => capabilities.noul,
                QuestionKind::Choice => capabilities.choice,
            };
            if status != CapabilityStatus::Verified {
                r matches Err(e) && e.error_kind() == ErrorKind::Configuration && e.error_text()
                    == "provider capability for this question type is not verified"@
            } else if capabilities.max_choices matches Some(limit) && request.choices@.len()
                > limit {
                r matches Err(e) && e.error_kind() == ErrorKind::Configuration && e.error_text()
                    == "choice count exceeds the verified provider limit"@
            } else {
                r is Ok
            }
        }),
{
    if capabilities.supports(request.kind) != CapabilityStatus::Verified {
        return Err(
            JudgmentError::configuration(
                "provider capability for this question type is not verified",
            ),
        );
    }
    if let Some(limit) = capabilities.max_choices {
        if request.choices.len() > limit {
            return Err(
                JudgmentError::configuration("choice count exceeds the verified provider limit"),
            );
        }
    }
    Ok(())
}

/// Completes every leader entry with `error`.
fn fail_leaders<R: ExecutionRuntime + ?Sized>(
    runtime: &R,
    leaders: &Vec<Option<R::Entry>>,
    error: &JudgmentError,
) {
    let mut i: usize = 0;
    while i < leaders.len()
        invariant
            i <= leaders@.len(),
        decreases leaders@.len() - i,
    {
        if let Some(entry) = &leaders[i] {
            runtime.complete_entry(entry, Err(error.duplicate()));
        }
        i = i + 1;
    }
}

/// Position of the answer for `key`, if any.
fn find_answer(answers: &Vec<ProviderAnswer>, key: &String) -> (r: Option<usize>)
    ensures
        match r {
            Some(i) => i < answers@.len() && answers@[i as int].request_key@ == key@ && forall|j: int|
                0 <= j < i ==> (#[trigger] answers@[j]).request_key@ != key@,
            None => forall|j: int| 0 <= j < answers@.len() ==> (#[trigger] answers@[j]).request_key@ != key@,
        },
{
    let mut i: usize = 0;
    while i < answers.len()
        invariant
            i <= answers@.len(),
            forall|j: int| 0 <= j < i ==> (#[trigger] answers@[j]).request_key@ != key@,
        decreases answers@.len() - i,
    {
        if answers[i].request_key == *key {
            return Some(i);
        }
        i = i + 1;
    }
    None
}

/// `i` is the position of the first answer carrying `key`.
pub open spec fn first_answer_at(answers: Seq<ProviderAnswer>, key: Seq<char>, i: int) -> bool {
    &&& 0 <= i < answers.len()
    &&& answers[i].request_key@ == key
    &&& forall|j: int| 0 <= j < i ==> (#[trigger] answers[j]).request_key@ != key
}

/// `results` holds, for each request in order, the result of the answer carrying that
/// request's key.
pub open spec fn results_by_key(
    requests: Seq<JudgmentRequest>,
    answers: Seq<ProviderAnswer>,
    results: Seq<JudgmentResult>,
) -> bool {
    &&& results.len() == requests.len()
    &&& forall|b: int|
        #![trigger results[b]]
        0 <= b < requests.len() ==> exists|i: int|
            #![trigger answers[i]]
            first_answer_at(answers, requests[b].request_key@, i) && results[b] == answers[i].result
}

/// With distinct request keys, the first request carrying request `b`'s key is `b`.
proof fn lemma_first_request_is(requests: Seq<JudgmentRequest>, b: int)
    requires
        keys_distinct(request_keys(requests)),
        0 <= b < requests.len(),
    ensures
        first_request_with_key(requests, requests[b].request_key@) == b,
{
    let key = requests[b].request_key@;
    let rk = request_keys(requests);
    assert forall|m: int| 0 <= m < b implies requests[m].request_key@ != key by {
        assert(rk[m] == requests[m].request_key@);
        assert(rk[b] == key);
    }
    let k = first_request_with_key(requests, key);
    assert(0 <= k < requests.len() && requests[k].request_key@ == key);
    if k != b {
        assert(rk[k] == key);
        assert(rk[b] == key);
    }
}

/// The answer keys of a valid batch are distinct.
proof fn lemma_valid_batch_keys_unique(requests: Seq<JudgmentRequest>, answers: Seq<ProviderAnswer>)
    requires
        batch_valid(requests, answers),
    ensures
        answer_keys(answers).no_duplicates(),
{
    let ak = answer_keys(answers);
    assert forall|i: int, j: int| 0 <= i < ak.len() && 0 <= j < ak.len() && i != j implies ak[i]
        != ak[j] by {
        let (lo, hi) = if i < j {
            (i, j)
        } else {
            (j, i)
        };
        assert(answer_acceptable(requests, answers, hi));
        assert(ak.subrange(0, hi)[lo] == ak[lo]);
    }
}

/// Every answer key of a valid batch is a request key.
proof fn lemma_valid_batch_keys_requested(
    requests: Seq<JudgmentRequest>,
    answers: Seq<ProviderAnswer>,
)
    requires
        batch_valid(requests, answers),
    ensures
        answer_keys(answers).to_set().subset_of(request_keys(requests).to_set()),
{
    let ak = answer_keys(answers);
    let rk = request_keys(requests);
    assert forall|k: Seq<char>| ak.to_set().contains(k) implies rk.to_set().contains(k) by {
        let i = choose|i: int| 0 <= i < ak.len() && ak[i] == k;
        assert(answer_acceptable(requests, answers, i));
        let m = choose|m: int| 0 <= m < requests.len() && requests[m].request_key@ == k;
        assert(rk[m] == k);
    }
}

/// A valid batch answers every request key: the answer keys are distinct keys of requests and
/// as many as the requests, so each request key is among them.
proof fn lemma_valid_batch_answers_every_key(
    requests: Seq<JudgmentRequest>,
    answers: Seq<ProviderAnswer>,
    b: int,
)
    requires
        batch_valid(requests, answers),
        0 <= b < requests.len(),
    ensures
        exists|i: int| 0 <= i < answers.len() && (#[trigger] answers[i]).request_key@
            == requests[b].request_key@,
{
    let ak = answer_keys(answers);
    let rk = request_keys(requests);
    lemma_valid_batch_keys_unique(requests, answers);
    lemma_valid_batch_keys_requested(requests, answers);
    ak.unique_seq_to_set();
    rk.unique_seq_to_set();
    vstd::set_lib::lemma_subset_equality(ak.to_set(), rk.to_set());
    assert(rk[b] == requests[b].request_key@);
    assert(rk.to_set().contains(rk[b]));
    assert(ak.to_set().contains(rk[b]));
    let i = choose|i: int| 0 <= i < ak.len() && ak[i] == rk[b];
    assert(answers[i].request_key@ == requests[b].request_key@);
}

/// In a valid batch, the answer carrying request `b`'s key answers request `b`.
proof fn lemma_found_answer_answers(
    requests: Seq<JudgmentRequest>,
    answers: Seq<ProviderAnswer>,
    b: int,
    i: int,
)
    requires
        batch_valid(requests, answers),
        0 <= b < requests.len(),
        0 <= i < answers.len(),
        answers[i].request_key@ == requests[b].request_key@,
    ensures
        result_answers(requests[b]@, answers[i].result),
{
    assert(answer_acceptable(requests, answers, i));
    lemma_first_request_is(requests, b);
}

/// The results of a batch response, one per request in request order, each taken from the
/// answer that carries the request's key (answers may come back in any order). The response
/// is accepted exactly when it is a valid batch; otherwise the validation error is returned.
pub fn batch_results(requests: &[JudgmentRequest], response: &ProviderBatchResult) -> (r: Result<
    Vec<JudgmentResult>,
    JudgmentError,
>)
    ensures
        r is Ok <==> batch_valid(requests@, response.answers@),
        r matches Err(e) ==> crate::provider::batch_error(requests@, response.answers@, e),
        r matches Ok(rs) ==> results_by_key(requests@, response.answers@, rs@) && forall|b: int|
            0 <= b < requests@.len() ==> result_answers(requests@[b]@, #[trigger] rs@[b]),
{
    if let Err(error) = validate_batch_result(requests, response) {
        return Err(error);
    }
    let mut results: Vec<JudgmentResult> = Vec::new();
    let ghost mut positions: Seq<int> = Seq::empty();
    let mut b: usize = 0;
    while b < requests.len()
        invariant
            b <= requests@.len(),
            batch_valid(requests@, response.answers@),
            results@.len() == b,
            positions.len() == b,
            forall|q: int|
                0 <= q < b ==> first_answer_at(
                    response.answers@,
                    requests@[q].request_key@,
                    #[trigger] positions[q],
                ) && results@[q] == response.answers@[positions[q]].result && result_answers(
                    requests@[q]@,
                    results@[q],
                ),
        decreases requests@.len() - b,
    {
        proof {
            lemma_valid_batch_answers_every_key(requests@, response.answers@, b as int);
        }
        let position = match find_answer(&response.answers, &requests[b].request_key) {
            Some(position) => position,
            None => {
                return Err(JudgmentError::invalid_response("provider batch answer is missing"));
            },
        };
        let result = response.answers[position].result.duplicate();
        proof {
            lemma_found_answer_answers(requests@, response.answers@, b as int, position as int);
            positions = positions.push(position as int);
        }
        results.push(result);
        b = b + 1;
    }
    proof {
        assert forall|q: int| 0 <= q < requests@.len() implies exists|i: int|
            first_answer_at(response.answers@, requests@[q].request_key@, i) && #[trigger] results@[q]
                == response.answers@[i].result by {
            assert(first_answer_at(response.answers@, requests@[q].request_key@, positions[q]));
        }
        assert forall|q: int| 0 <= q < requests@.len() implies result_answers(
            requests@[q]@,
            #[trigger] results@[q],
        ) by {
            assert(first_answer_at(response.answers@, requests@[q].request_key@, positions[q]));
        }
        assert(results_by_key(requests@, response.answers@, results@));
    }
    Ok(results)
}

/// One provider attempt for a batch of requests; see `attempt_single`. On success the results
/// are those of `batch_results` on the provider's response, whose answers are returned as the
/// last component.
fn attempt_batch<P: Provider + ?Sized, R: ExecutionRuntime + ?Sized>(
    requests: &Vec<JudgmentRequest>,
    provider: &P,
    runtime: &R,
    limits: ExecutionLimits,
    external: bool,
) -> (r: (
    Result<(Vec<JudgmentResult>, Option<String>), JudgmentError>,
    bool,
    bool,
    u64,
    Ghost<Seq<ProviderAnswer>>,
))
    ensures
        r.0 matches Ok(ok) ==> results_by_key(requests@, r.4@, ok.0@) && forall|b: int|
            0 <= b < requests@.len() ==> result_answers(requests@[b]@, #[trigger] ok.0@[b]),
{
    let _permit = match runtime.acquire_permit(limits.query_scope, limits.max_inflight) {
        Ok(permit) => permit,
        Err(error) => return (Err(error), false, false, 0, Ghost(Seq::empty())),
    };
    runtime.record_provider_attempt(limits.query_scope, requests.len(), external);
    let started = runtime.now_ns();
    let response = provider.judge_many(requests.as_slice());
    let elapsed = runtime.now_ns().saturating_sub(started);
    let response = match response {
        Ok(response) => response,
        Err(error) => return (Err(error), true, false, elapsed, Ghost(Seq::empty())),
    };
    runtime.record_provider_response(limits.query_scope, &response.metadata, elapsed, external);
    let ghost answers = response.answers@;
    match batch_results(requests.as_slice(), &response) {
        Ok(results) => {
            let effective_model = copy_opt_text(&response.metadata.effective_model);
            (Ok((results, effective_model)), true, true, elapsed, Ghost(answers))
        },
        Err(error) => (Err(error), true, true, elapsed, Ghost(answers)),
    }
}

/// Sends one batch of leader groups (at least one, at most `max_batch`, all sharing one
/// question context), caches what may be cached, and completes the leaders' entries with the
/// outcome. On success the results are those of the listed groups, in order,
/// each validated against its group's request.
fn dispatch<P: Provider + ?Sized, R: ExecutionRuntime + ?Sized>(
    groups: &[JudgmentGroup],
    leaders: &Vec<Option<R::Entry>>,
    cache_keys: &Vec<Option<JudgmentIdentity>>,
    provider: &P,
    runtime: &R,
    limits: ExecutionLimits,
    cache_policy: Option<&CachePolicy>,
    indices: &Vec<usize>,
    Ghost(max_batch): Ghost<usize>,
) -> (r: (Result<Vec<JudgmentResult>, JudgmentError>, Ghost<(Seq<JudgmentRequest>, Seq<ProviderAnswer>)>))
    requires
        leaders@.len() == groups@.len(),
        cache_keys@.len() == groups@.len(),
        forall|b: int| 0 <= b < indices@.len() ==> (#[trigger] indices@[b]) < groups@.len(),
        0 < indices@.len() <= max_batch,
        forall|b1: int, b2: int|
            0 <= b1 < indices@.len() && 0 <= b2 < indices@.len() ==> batch_compatible(
                groups@[(#[trigger] indices@[b1]) as int].identity@,
                groups@[(#[trigger] indices@[b2]) as int].identity@,
            ),
    ensures
        r.1@.0.len() == indices@.len(),
        forall|b: int|
            0 <= b < indices@.len() ==> (#[trigger] r.1@.0[b])@ == (RequestView {
                request_key: batch_key(b as nat),
                ..groups@[indices@[b] as int].request@
            }),
        r.0 matches Ok(rs) ==> results_by_key(r.1@.0, r.1@.1, rs@),
        r.0 matches Ok(rs) ==> rs@.len() == indices@.len() && forall|b: int|
            0 <= b < indices@.len() ==> result_answers(
                groups@[indices@[b] as int].request@,
                #[trigger] rs@[b],
            ),
{
    let requests = requests_for_groups(groups, indices.as_slice(), None);
    let external = provider.makes_external_request();
    let ghost sent = requests@;
    let (attempt, attempted, response_received, elapsed, answers) = attempt_batch(
        &requests,
        provider,
        runtime,
        limits,
        external,
    );
    if attempted && attempt.is_err() && external {
        runtime.record_failed_request(limits.query_scope);
        if !response_received {
            runtime.record_provider_failure(limits.query_scope, elapsed, external);
        }
    }
    match attempt {
        Ok((results, effective_model)) => {
            let mut b: usize = 0;
            while b < indices.len()
                invariant
                    b <= indices@.len(),
                    results@.len() == indices@.len(),
                    leaders@.len() == groups@.len(),
                    cache_keys@.len() == groups@.len(),
                    forall|b: int|
                        0 <= b < indices@.len() ==> (#[trigger] indices@[b]) < groups@.len(),
                decreases indices@.len() - b,
            {
                let index = indices[b];
                if let (Some(identity), Some(policy)) = (&cache_keys[index], cache_policy) {
                    if same_opt_text(&effective_model, &identity.effective_model)
                        && provider_model_is_stable(
                        provider,
                        &groups[index],
                        &identity.effective_model,
                    ) {
                        let now = runtime.now_ns();
                        runtime.cache_insert(
                            identity.duplicate(),
                            results[b].duplicate(),
                            now,
                            policy,
                        );
                    }
                }
                if let Some(entry) = &leaders[index] {
                    runtime.complete_entry(entry, Ok(results[b].duplicate()));
                }
                b = b + 1;
            }
            proof {
                assert forall|b: int| 0 <= b < indices@.len() implies result_answers(
                    groups@[indices@[b] as int].request@,
                    #[trigger] results@[b],
                ) by {
                    assert(result_answers(requests@[b]@, results@[b]));
                }
            }
            (Ok(results), Ghost((sent, answers@)))
        },
        Err(error) => {
            let mut b: usize = 0;
            while b < indices.len()
                invariant
                    b <= indices@.len(),
                    leaders@.len() == groups@.len(),
                    forall|b: int|
                        0 <= b < indices@.len() ==> (#[trigger] indices@[b]) < groups@.len(),
                decreases indices@.len() - b,
            {
                if let Some(entry) = &leaders[indices[b]] {
                    runtime.complete_entry(entry, Err(error.duplicate()));
                }
                b = b + 1;
            }
            (Err(error), Ghost((sent, answers@)))
        },
    }
}

/// `pair` is a target of an emitted group paired with that group's result.
spec fn emitted_from(
    groups: Seq<JudgmentGroup>,
    res: Seq<JudgmentResult>,
    st: Seq<int>,
    pair: (RowTarget, JudgmentResult),
) -> bool {
    exists|g: int|
        0 <= g < groups.len() && st[g] == 1 && groups[g].targets@.contains(pair.0) && pair.1
            == res[g]
}

/// The output so far pairs each target of each group marked emitted (`st[g] == 1`) with the
/// group's result, and holds nothing else.
spec fn emitted_ok(
    groups: Seq<JudgmentGroup>,
    res: Seq<JudgmentResult>,
    st: Seq<int>,
    out: Seq<(RowTarget, JudgmentResult)>,
) -> bool {
    &&& res.len() == groups.len()
    &&& st.len() == groups.len()
    &&& forall|g: int|
        0 <= g < groups.len() && #[trigger] st[g] == 1 ==> result_answers(groups[g].request@, res[g])
    &&& forall|k: int| 0 <= k < out.len() ==> emitted_from(groups, res, st, #[trigger] out[k])
    &&& forall|g: int, j: int|
        0 <= g < groups.len() && st[g] == 1 && 0 <= j < groups[g].targets@.len() ==> out.contains(
            (#[trigger] groups[g].targets@[j], res[g]),
        )
}

proof fn lemma_emit(
    groups: Seq<JudgmentGroup>,
    res: Seq<JudgmentResult>,
    st: Seq<int>,
    out: Seq<(RowTarget, JudgmentResult)>,
    g: int,
    r: JudgmentResult,
)
    requires
        emitted_ok(groups, res, st, out),
        0 <= g < groups.len(),
        st[g] != 1,
        result_answers(groups[g].request@, r),
    ensures
        emitted_ok(
            groups,
            res.update(g, r),
            st.update(g, 1),
            out + labelled(groups[g].targets@, r),
        ),
{
    let res2 = res.update(g, r);
    let st2 = st.update(g, 1);
    let block = labelled(groups[g].targets@, r);
    let out2 = out + block;
    assert forall|k: int| 0 <= k < out2.len() implies emitted_from(groups, res2, st2, #[trigger] out2[k]) by {
        if k < out.len() {
            assert(out2[k] == out[k]);
            assert(emitted_from(groups, res, st, out[k]));
            let h = choose|h: int|
                0 <= h < groups.len() && st[h] == 1 && groups[h].targets@.contains(out[k].0)
                    && out[k].1 == res[h];
            assert(h != g);
            assert(st2[h] == 1 && res2[h] == res[h]);
        } else {
            let j = k - out.len();
            assert(out2[k] == block[j]);
            assert(block[j] == (groups[g].targets@[j], r));
            assert(groups[g].targets@.contains(groups[g].targets@[j]));
            assert(st2[g] == 1 && res2[g] == r);
        }
    }
    assert forall|h: int, j: int|
        0 <= h < groups.len() && st2[h] == 1 && 0 <= j < groups[h].targets@.len() implies out2.contains(
        (#[trigger] groups[h].targets@[j], res2[h]),
    ) by {
        if h == g {
            assert(out2[out.len() + j] == block[j]);
        } else {
            assert(out.contains((groups[h].targets@[j], res[h])));
            let k = choose|k: int| 0 <= k < out.len() && out[k] == (groups[h].targets@[j], res[h]);
            assert(out2[k] == out[k]);
        }
    }
}

proof fn lemma_mark_pending(
    groups: Seq<JudgmentGroup>,
    res: Seq<JudgmentResult>,
    st: Seq<int>,
    out: Seq<(RowTarget, JudgmentResult)>,
    g: int,
    v: int,
)
    requires
        emitted_ok(groups, res, st, out),
        0 <= g < groups.len(),
        st[g] != 1,
        v != 1,
    ensures
        emitted_ok(groups, res, st.update(g, v), out),
{
    let st2 = st.update(g, v);
    assert forall|k: int| 0 <= k < out.len() implies emitted_from(groups, res, st2, #[trigger] out[k]) by {
        assert(emitted_from(groups, res, st, out[k]));
        let h = choose|h: int|
            0 <= h < groups.len() && st[h] == 1 && groups[h].targets@.contains(out[k].0)
                && out[k].1 == res[h];
        assert(st2[h] == 1);
    }
}

proof fn lemma_all_emitted(
    groups: Seq<JudgmentGroup>,
    res: Seq<JudgmentResult>,
    st: Seq<int>,
    out: Seq<(RowTarget, JudgmentResult)>,
)
    requires
        emitted_ok(groups, res, st, out),
        forall|g: int| 0 <= g < groups.len() ==> st[g] == 1,
    ensures
        covers(groups, res, out),
{
    assert forall|g: int| 0 <= g < groups.len() implies result_answers(
        groups[g].request@,
        #[trigger] res[g],
    ) by {
        assert(st[g] == 1);
    }
    assert forall|k: int| 0 <= k < out.len() implies from_group(groups, res, #[trigger] out[k]) by {
        assert(emitted_from(groups, res, st, out[k]));
        let g = choose|g: int|
            0 <= g < groups.len() && st[g] == 1 && groups[g].targets@.contains(out[k].0)
                && out[k].1 == res[g];
    }
    assert forall|g: int, j: int|
        0 <= g < groups.len() && 0 <= j < groups[g].targets@.len() implies out.contains(
        (#[trigger] groups[g].targets@[j], res[g]),
    ) by {
        assert(st[g] == 1);
    }
}

/// The partition whose first group may share a batch with `identity`, if any.
fn find_partition(groups: &[JudgmentGroup], heads: &Vec<usize>, identity: &JudgmentIdentity) -> (r:
    Option<usize>)
    requires
        forall|p: int| 0 <= p < heads@.len() ==> (#[trigger] heads@[p]) < groups@.len(),
    ensures
        match r {
            Some(p) => p < heads@.len() && batch_compatible(
                groups@[heads@[p as int] as int].identity@,
                identity@,
            ) && forall|q: int|
                0 <= q < p ==> !batch_compatible(
                    groups@[(#[trigger] heads@[q]) as int].identity@,
                    identity@,
                ),
            None => forall|q: int|
                0 <= q < heads@.len() ==> !batch_compatible(
                    groups@[(#[trigger] heads@[q]) as int].identity@,
                    identity@,
                ),
        },
{
    let mut p: usize = 0;
    while p < heads.len()
        invariant
            p <= heads@.len(),
            forall|p: int| 0 <= p < heads@.len() ==> (#[trigger] heads@[p]) < groups@.len(),
            forall|q: int|
                0 <= q < p ==> !batch_compatible(
                    groups@[(#[trigger] heads@[q]) as int].identity@,
                    identity@,
                ),
        decreases heads@.len() - p,
    {
        if groups[heads[p]].identity.same_batch_context(identity) {
            return Some(p);
        }
        p = p + 1;
    }
    None
}

/// Whether group `g` is listed in `indices`.
spec fn listed(indices: Seq<usize>, g: int) -> bool {
    exists|b: int| 0 <= b < indices.len() && indices[b] == g
}

/// `st` with every listed group marked emitted.
spec fn mark_emitted(st: Seq<int>, indices: Seq<usize>) -> Seq<int> {
    Seq::new(st.len(), |g: int| if listed(indices, g) { 1 } else { st[g] })
}

/// Appends the targets of each listed group with its result, in order.
fn emit_batch(
    output: &mut Vec<(RowTarget, JudgmentResult)>,
    groups: &[JudgmentGroup],
    indices: &Vec<usize>,
    results: &Vec<JudgmentResult>,
    Ghost(res): Ghost<Seq<JudgmentResult>>,
    Ghost(st): Ghost<Seq<int>>,
) -> (r: Ghost<(Seq<JudgmentResult>, Seq<int>)>)
    requires
        emitted_ok(groups@, res, st, old(output)@),
        results@.len() == indices@.len(),
        forall|b: int|
            0 <= b < indices@.len() ==> (#[trigger] indices@[b]) < groups@.len() && st[indices@[b] as int]
                == 2,
        forall|b1: int, b2: int| 0 <= b1 < b2 < indices@.len() ==> indices@[b1] < indices@[b2],
        forall|b: int|
            0 <= b < indices@.len() ==> result_answers(
                groups@[indices@[b] as int].request@,
                #[trigger] results@[b],
            ),
    ensures
        emitted_ok(groups@, r@.0, r@.1, final(output)@),
        r@.1 == mark_emitted(st, indices@),
        r@.0.len() == res.len(),
        forall|b: int| 0 <= b < indices@.len() ==> r@.0[(#[trigger] indices@[b]) as int] == results@[b],
        forall|g: int| 0 <= g < res.len() && !listed(indices@, g) ==> #[trigger] r@.0[g] == res[g],
{
    let ghost mut res2 = res;
    let ghost mut st2 = st;
    let mut b: usize = 0;
    while b < indices.len()
        invariant
            b <= indices@.len(),
            results@.len() == indices@.len(),
            emitted_ok(groups@, res2, st2, output@),
            forall|q: int|
                0 <= q < indices@.len() ==> result_answers(
                    groups@[indices@[q] as int].request@,
                    #[trigger] results@[q],
                ),
            forall|q: int|
                0 <= q < indices@.len() ==> (#[trigger] indices@[q]) < groups@.len() && st[indices@[q] as int]
                    == 2,
            forall|b1: int, b2: int| 0 <= b1 < b2 < indices@.len() ==> indices@[b1] < indices@[b2],
            st2.len() == st.len(),
            res2.len() == res.len(),
            forall|q: int| 0 <= q < b ==> res2[(#[trigger] indices@[q]) as int] == results@[q],
            forall|g: int|
                0 <= g < res.len() && !listed(indices@.subrange(0, b as int), g) ==> #[trigger] res2[g]
                    == res[g],
            forall|g: int|
                0 <= g < st.len() ==> #[trigger] st2[g] == if listed(
                    indices@.subrange(0, b as int),
                    g,
                ) {
                    1
                } else {
                    st[g]
                },
        decreases indices@.len() - b,
    {
        let index = indices[b];
        proof {
            if listed(indices@.subrange(0, b as int), index as int) {
                let q = choose|q: int|
                    0 <= q < b && indices@.subrange(0, b as int)[q] == index as int;
                assert(indices@[q] == index);
            }
        }
        let ghost before = output@;
        push_labelled(output, &groups[index].targets, &results[b]);
        proof {
            lemma_emit(groups@, res2, st2, before, index as int, results@[b as int]);
            res2 = res2.update(index as int, results@[b as int]);
            st2 = st2.update(index as int, 1);
            let sub = indices@.subrange(0, b as int);
            let sub1 = indices@.subrange(0, b + 1);
            assert(sub1 =~= sub.push(index));
            assert forall|g: int| 0 <= g < res.len() && !listed(sub1, g) implies #[trigger] res2[g]
                == res[g] by {
                assert(sub1[b as int] == index);
                if listed(sub, g) {
                    let q = choose|q: int| 0 <= q < sub.len() && sub[q] == g;
                    assert(sub1[q] == g);
                }
            }
            assert forall|g: int| 0 <= g < st.len() implies #[trigger] st2[g] == if listed(sub1, g) {
                1
            } else {
                st[g]
            } by {
                if g == index {
                    assert(sub1[b as int] == index);
                } else {
                    if listed(sub1, g) {
                        let q = choose|q: int| 0 <= q < sub1.len() && sub1[q] == g;
                        assert(sub[q] == g);
                    }
                    if listed(sub, g) {
                        let q = choose|q: int| 0 <= q < sub.len() && sub[q] == g;
                        assert(sub1[q] == g);
                    }
                }
            }
        }
        b = b + 1;
    }
    assert(indices@.subrange(0, indices@.len() as int) =~= indices@);
    assert(st2 =~= mark_emitted(st, indices@));
    Ghost((res2, st2))
}

/// The batch limit fits the capabilities the provider reported: batching is verified, and the
/// limit is positive, within the configured limit and within the provider's own, if any.
pub open spec fn batch_limit_fits(
    capabilities: ProviderCapabilities,
    limit: usize,
    max_judgments: usize,
) -> bool {
    &&& capabilities.multi_state_batch == CapabilityStatus::Verified
    &&& 0 < limit <= max_judgments
    &&& capabilities.max_batch_judgments matches Some(m) ==> limit <= m
}

/// `request` passes `check_batch_capability` under `capabilities`: its question type is
/// verified and its labels are within the provider's label limit.
pub open spec fn batch_capable(capabilities: ProviderCapabilities, request: JudgmentRequest) -> bool {
    &&& match request.kind {
        QuestionKind::Noul => capabilities.noul,
        QuestionKind::Choice => capabilities.choice,
    } == CapabilityStatus::Verified
    &&& !(capabilities.max_choices matches Some(limit) && request.choices@.len() > limit)
}

/// Sources with every member of a new batch `k` pointing at its position in that batch.
spec fn batch_sources(sources: Seq<GroupSource>, members: Seq<usize>, k: int) -> Seq<GroupSource> {
    Seq::new(
        sources.len(),
        |g: int|
            if listed(members, g) {
                GroupSource::Batch(k, choose|q: int| 0 <= q < members.len() && members[q] == g)
            } else {
                sources[g]
            },
    )
}

/// The record kept while executing: recorded batches are well formed and every emitted group's
/// result is what its source gives.
#[verifier::opaque]
spec fn trace_ok(
    groups: Seq<JudgmentGroup>,
    limit: usize,
    max_bytes: usize,
    batches: Seq<SentBatch>,
    sources: Seq<GroupSource>,
    res: Seq<JudgmentResult>,
    st: Seq<int>,
) -> bool {
    &&& sources.len() == groups.len()
    &&& forall|k: int| 0 <= k < batches.len() ==> batch_sent_ok(groups, limit, max_bytes, #[trigger] batches[k])
    &&& forall|g: int|
        0 <= g < groups.len() && #[trigger] st[g] == 1 ==> source_ok(
            groups,
            batches,
            g,
            sources[g],
            res[g],
        )
}

proof fn lemma_trace_init(groups: Seq<JudgmentGroup>, limit: usize, max_bytes: usize, res: Seq<JudgmentResult>, st: Seq<int>)
    requires
        forall|g: int| 0 <= g < groups.len() ==> #[trigger] st[g] == 0,
    ensures
        trace_ok(
            groups,
            limit,
            max_bytes,
            Seq::empty(),
            Seq::new(groups.len(), |g: int| GroupSource::Pending),
            res,
            st,
        ),
{
    reveal(trace_ok);
}

proof fn lemma_trace_facts(
    groups: Seq<JudgmentGroup>,
    limit: usize,
    max_bytes: usize,
    batches: Seq<SentBatch>,
    sources: Seq<GroupSource>,
    res: Seq<JudgmentResult>,
    st: Seq<int>,
)
    requires
        trace_ok(groups, limit, max_bytes, batches, sources, res, st),
    ensures
        sources.len() == groups.len(),
        forall|k: int| 0 <= k < batches.len() ==> batch_sent_ok(groups, limit, max_bytes, #[trigger] batches[k]),
        forall|g: int|
            0 <= g < groups.len() && #[trigger] st[g] == 1 ==> source_ok(
                groups,
                batches,
                g,
                sources[g],
                res[g],
            ),
{
    reveal(trace_ok);
}

proof fn lemma_trace_status(
    groups: Seq<JudgmentGroup>,
    limit: usize,
    max_bytes: usize,
    batches: Seq<SentBatch>,
    sources: Seq<GroupSource>,
    res: Seq<JudgmentResult>,
    st: Seq<int>,
    g: int,
    v: int,
)
    requires
        trace_ok(groups, limit, max_bytes, batches, sources, res, st),
        st.len() == groups.len(),
        0 <= g < st.len(),
        st[g] != 1,
        v != 1,
    ensures
        trace_ok(groups, limit, max_bytes, batches, sources, res, st.update(g, v)),
{
    reveal(trace_ok);
    let st2 = st.update(g, v);
    assert forall|h: int| 0 <= h < groups.len() && #[trigger] st2[h] == 1 implies source_ok(
        groups,
        batches,
        h,
        sources[h],
        res[h],
    ) by {
        assert(h != g);
        assert(st[h] == 1);
    }
}

proof fn lemma_trace_single(
    groups: Seq<JudgmentGroup>,
    limit: usize,
    max_bytes: usize,
    batches: Seq<SentBatch>,
    sources: Seq<GroupSource>,
    res: Seq<JudgmentResult>,
    st: Seq<int>,
    g: int,
    source: GroupSource,
    result: JudgmentResult,
)
    requires
        trace_ok(groups, limit, max_bytes, batches, sources, res, st),
        0 <= g < groups.len(),
        res.len() == groups.len(),
        st.len() == groups.len(),
        single_source_ok(groups[g], source, result),
        !(source is Batch),
    ensures
        trace_ok(
            groups,
            limit,
            max_bytes,
            batches,
            sources.update(g, source),
            res.update(g, result),
            st.update(g, 1),
        ),
{
    reveal(trace_ok);
    let st2 = st.update(g, 1);
    let res2 = res.update(g, result);
    let src2 = sources.update(g, source);
    assert forall|h: int| 0 <= h < groups.len() && #[trigger] st2[h] == 1 implies source_ok(
        groups,
        batches,
        h,
        src2[h],
        res2[h],
    ) by {
        if h != g {
            assert(st[h] == 1);
        }
    }
}

proof fn lemma_trace_batch(
    groups: Seq<JudgmentGroup>,
    limit: usize,
    max_bytes: usize,
    batches: Seq<SentBatch>,
    sources: Seq<GroupSource>,
    res: Seq<JudgmentResult>,
    st: Seq<int>,
    nb: SentBatch,
    res2: Seq<JudgmentResult>,
    st2: Seq<int>,
)
    requires
        trace_ok(groups, limit, max_bytes, batches, sources, res, st),
        batch_sent_ok(groups, limit, max_bytes, nb),
        nb.results.len() == nb.members.len(),
        res.len() == groups.len(),
        st.len() == groups.len(),
        forall|q: int| 0 <= q < nb.members.len() ==> st[(#[trigger] nb.members[q]) as int] != 1,
        forall|q1: int, q2: int|
            0 <= q1 < q2 < nb.members.len() ==> nb.members[q1] < nb.members[q2],
        st2 == mark_emitted(st, nb.members),
        res2.len() == res.len(),
        forall|q: int|
            0 <= q < nb.members.len() ==> res2[(#[trigger] nb.members[q]) as int] == nb.results[q],
        forall|h: int| 0 <= h < res.len() && !listed(nb.members, h) ==> #[trigger] res2[h] == res[h],
    ensures
        trace_ok(
            groups,
            limit,
            max_bytes,
            batches.push(nb),
            batch_sources(sources, nb.members, batches.len() as int),
            res2,
            st2,
        ),
{
    reveal(trace_ok);
    let k = batches.len() as int;
    let b2 = batches.push(nb);
    let src2 = batch_sources(sources, nb.members, k);
    assert forall|j: int| 0 <= j < b2.len() implies batch_sent_ok(groups, limit, max_bytes, #[trigger] b2[j]) by {
        if j < batches.len() {
            assert(b2[j] == batches[j]);
        }
    }
    assert forall|h: int| 0 <= h < groups.len() && #[trigger] st2[h] == 1 implies source_ok(
        groups,
        b2,
        h,
        src2[h],
        res2[h],
    ) by {
        if listed(nb.members, h) {
            let q = choose|q: int| 0 <= q < nb.members.len() && nb.members[q] == h;
            assert forall|q2: int| 0 <= q2 < nb.members.len() && nb.members[q2] == h implies q2 == q by {
                if q2 < q {
                    assert(nb.members[q2] < nb.members[q]);
                } else if q2 > q {
                    assert(nb.members[q] < nb.members[q2]);
                }
            }
            assert(src2[h] == GroupSource::Batch(k, q));
            assert(b2[k] == nb);
            assert(res2[nb.members[q] as int] == nb.results[q]);
        } else {
            assert(st[h] == 1);
            assert(src2[h] == sources[h]);
            assert(res2[h] == res[h]);
            match sources[h] {
                GroupSource::Batch(kk, qq) => {
                    if 0 <= kk < batches.len() {
                        assert(b2[kk] == batches[kk]);
                    }
                },
                _ => {},
            }
        }
    }
}

/// The record of a batch execution.
spec fn trace_of(
    caps: ProviderCapabilities,
    batch_limit: usize,
    results: Seq<JudgmentResult>,
    sources: Seq<GroupSource>,
    batches: Seq<SentBatch>,
) -> ExecutionTrace {
    ExecutionTrace { capabilities: Some(caps), batch_limit, results, sources, batches }
}

/// Batches distinct compatible identities, with exact request-key validation before expansion.
/// A provider must declare verified multi-state support before the first call is made.
///
/// Groups whose result is cached, or whose judgment another invocation of this query already
/// owns, are answered without a provider call; the others are split into batches of compatible
/// identities within the judgment and request byte limits. On success every target of every
/// group is paired with its group's result. The ghost record gives the capabilities the
/// provider reported, the batch limit, every batch sent with the answers it received, and
/// each group's result with its source.
#[verifier::spinoff_prover]
#[verifier::rlimit(50)]
pub fn execute_batch_groups<P: Provider + ?Sized, R: ExecutionRuntime + ?Sized>(
    groups: &[JudgmentGroup],
    provider: &P,
    runtime: &R,
    max_judgments: usize,
    limits: ExecutionLimits,
    cache_policy: Option<&CachePolicy>,
) -> (r: (Result<Vec<(RowTarget, JudgmentResult)>, JudgmentError>, Ghost<ExecutionTrace>))
    ensures
        max_judgments == 0 || limits.max_request_bytes == 0 ==> (r.0 matches Err(e)
            && e.error_kind() == ErrorKind::Configuration),
        r.1@.capabilities is Some,
        forall|k: int|
            0 <= k < r.1@.batches.len() ==> batch_sent_ok(
                groups@,
                r.1@.batch_limit,
                limits.max_request_bytes,
                #[trigger] r.1@.batches[k],
            ),
        r.1@.batches.len() > 0 || r.0 is Ok ==> batch_limit_fits(
            r.1@.capabilities->Some_0,
            r.1@.batch_limit,
            max_judgments,
        ),
        r.0 matches Ok(out) ==> {
            &&& covers(groups@, r.1@.results, out@)
            &&& r.1@.sources.len() == groups@.len()
            &&& forall|g: int|
                0 <= g < groups@.len() ==> source_ok(
                    groups@,
                    r.1@.batches,
                    g,
                    #[trigger] r.1@.sources[g],
                    r.1@.results[g],
                )
            &&& forall|g: int|
                0 <= g < groups@.len() ==> batch_capable(
                    r.1@.capabilities->Some_0,
                    #[trigger] groups@[g].request,
                )
        },
{
    let capabilities = provider.capabilities();
    let ghost caps = capabilities;
    let n = groups.len();
    let ghost mut st: Seq<int> = Seq::new(n as nat, |g: int| 0int);
    let ghost mut res: Seq<JudgmentResult> = Seq::new(n as nat, |g: int| JudgmentResult::Noul(0));
    let ghost mut batches: Seq<SentBatch> = Seq::empty();
    let ghost mut sources: Seq<GroupSource> = Seq::new(n as nat, |g: int| GroupSource::Pending);
    let batch_limit = match batch_judgment_limit(&capabilities, max_judgments, limits.max_request_bytes) {
        Ok(limit) => limit,
        Err(error) => {
            let ghost batch_limit = 0usize;
            return (Err(error), Ghost(trace_of(caps, batch_limit, res, sources, batches)));
        },
    };
    proof {
        lemma_trace_init(groups@, batch_limit, limits.max_request_bytes, res, st);
    }
    let mut output: Vec<(RowTarget, JudgmentResult)> = Vec::new();
    let mut heads: Vec<usize> = Vec::new();
    let mut leaders: Vec<Option<R::Entry>> = Vec::new();
    let mut part_of: Vec<usize> = Vec::new();
    let mut cache_keys: Vec<Option<JudgmentIdentity>> = Vec::new();
    let mut followers: Vec<(usize, R::Entry, R::Cancellation)> = Vec::new();
    let mut index: usize = 0;
    while index < n
        invariant
            max_judgments > 0 && limits.max_request_bytes > 0,
            caps == capabilities,
            batch_limit_fits(caps, batch_limit, max_judgments),
            trace_ok(groups@, batch_limit, limits.max_request_bytes, batches, sources, res, st),
            forall|g: int| 0 <= g < index ==> batch_capable(caps, #[trigger] groups@[g].request),
            n == groups@.len(),
            index <= n,
            emitted_ok(groups@, res, st, output@),
            leaders@.len() == index,
            part_of@.len() == index,
            cache_keys@.len() == index,
            forall|g: int| index <= g < n ==> #[trigger] st[g] == 0,
            forall|g: int| 0 <= g < index ==> #[trigger] st[g] == 1 || st[g] == 2 || st[g] == 3,
            forall|g: int| 0 <= g < index ==> (#[trigger] st[g] == 2 <==> leaders@[g] is Some),
            forall|g: int| 0 <= g < index && #[trigger] st[g] == 2 ==> part_of@[g] < heads@.len(),
            forall|p: int| 0 <= p < heads@.len() ==> #[trigger] heads@[p] < n,
            forall|g: int|
                0 <= g < index && #[trigger] st[g] == 2 ==> batch_compatible(
                    groups@[heads@[part_of@[g] as int] as int].identity@,
                    groups@[g].identity@,
                ),
            forall|f: int|
                0 <= f < followers@.len() ==> (#[trigger] followers@[f]).0 < index && st[followers@[f].0 as int]
                    == 3,
            forall|f1: int, f2: int|
                0 <= f1 < f2 < followers@.len() ==> followers@[f1].0 < followers@[f2].0,
            forall|g: int|
                0 <= g < index && #[trigger] st[g] == 3 ==> exists|f: int|
                    0 <= f < followers@.len() && (#[trigger] followers@[f]).0 == g,
        decreases n - index,
    {
        let group = &groups[index];
        if let Err(error) = check_batch_capability(&capabilities, &group.request) {
            proof {
                lemma_trace_facts(groups@, batch_limit, limits.max_request_bytes, batches, sources, res, st);
            }
            return (Err(error), Ghost(trace_of(caps, batch_limit, res, sources, batches)));
        }
        let cache_identity = match cache_policy {
            Some(_) => cache_identity_for(group, provider),
            None => None,
        };
        let (entry, owns_request) = match runtime.claim_query_entry(limits.query_scope, &group.identity) {
            Ok(claim) => claim,
            Err(error) => {
                proof {
                    lemma_trace_facts(groups@, batch_limit, limits.max_request_bytes, batches, sources, res, st);
                }
                return (Err(error), Ghost(trace_of(caps, batch_limit, res, sources, batches)));
            },
        };
        let cancelled = match runtime.query_cancellation(limits.query_scope) {
            Ok(cancelled) => cancelled,
            Err(error) => {
                proof {
                    lemma_trace_facts(groups@, batch_limit, limits.max_request_bytes, batches, sources, res, st);
                }
                return (Err(error), Ghost(trace_of(caps, batch_limit, res, sources, batches)));
            },
        };
        if owns_request {
            let mut hit: Option<JudgmentResult> = None;
            if let Some(policy) = cache_policy {
                if let Err(error) = policy.validate() {
                    runtime.complete_entry(&entry, Err(error.duplicate()));
                    proof {
                        lemma_trace_facts(groups@, batch_limit, limits.max_request_bytes, batches, sources, res, st);
                    }
                    return (Err(error), Ghost(trace_of(caps, batch_limit, res, sources, batches)));
                }
                let now = runtime.now_ns();
                hit = match &cache_identity {
                    Some(identity) => runtime.cache_lookup(Some(identity), now, policy),
                    None => runtime.cache_lookup(None, now, policy),
                };
            }
            match hit {
                Some(result) => {
                    if let Err(error) = validate_judgment_result(&group.request, &result) {
                        runtime.complete_entry(&entry, Err(error.duplicate()));
                        proof {
                            lemma_trace_facts(groups@, batch_limit, limits.max_request_bytes, batches, sources, res, st);
                        }
                        return (Err(error), Ghost(trace_of(caps, batch_limit, res, sources, batches)));
                    }
                    runtime.record_cache_hit(limits.query_scope);
                    runtime.complete_entry(&entry, Ok(result.duplicate()));
                    let ghost before = output@;
                    push_labelled(&mut output, &group.targets, &result);
                    proof {
                        lemma_emit(groups@, res, st, before, index as int, result);
                        lemma_trace_single(
                            groups@,
                            batch_limit,
                            limits.max_request_bytes,
                            batches,
                            sources,
                            res,
                            st,
                            index as int,
                            GroupSource::Cached(result),
                            result,
                        );
                        sources = sources.update(index as int, GroupSource::Cached(result));
                        res = res.update(index as int, result);
                        st = st.update(index as int, 1);
                    }
                    leaders.push(None);
                    part_of.push(0);
                    cache_keys.push(None);
                },
                None => {
                    let part = match find_partition(groups, &heads, &group.identity) {
                        Some(p) => p,
                        None => {
                            heads.push(index);
                            heads.len() - 1
                        },
                    };
                    leaders.push(Some(entry));
                    part_of.push(part);
                    cache_keys.push(cache_identity);
                    proof {
                        lemma_mark_pending(groups@, res, st, output@, index as int, 2);
                        lemma_trace_status(groups@, batch_limit, limits.max_request_bytes, batches, sources, res, st, index as int, 2);
                        st = st.update(index as int, 2);
                    }
                },
            }
        } else {
            let ghost old_followers = followers@;
            followers.push((index, entry, cancelled));
            leaders.push(None);
            part_of.push(0);
            cache_keys.push(None);
            proof {
                lemma_mark_pending(groups@, res, st, output@, index as int, 3);
                lemma_trace_status(groups@, batch_limit, limits.max_request_bytes, batches, sources, res, st, index as int, 3);
                let old_st = st;
                st = st.update(index as int, 3);
                let last = (followers@.len() - 1) as int;
                assert(followers@[last].0 == index);
                assert forall|g: int| 0 <= g < index + 1 && #[trigger] st[g] == 3 implies exists|f: int|
                    0 <= f < followers@.len() && (#[trigger] followers@[f]).0 == g by {
                    if g == index {
                        assert(followers@[last].0 == g);
                    } else {
                        assert(old_st[g] == 3);
                        let f = choose|f: int|
                            0 <= f < old_followers.len() && (#[trigger] old_followers[f]).0 == g;
                        assert(followers@[f] == old_followers[f]);
                    }
                }
            }
        }
        index = index + 1;
    }
    let mut p: usize = 0;
    while p < heads.len()
        invariant
            max_judgments > 0 && limits.max_request_bytes > 0,
            n == groups@.len(),
            leaders@.len() == n,
            part_of@.len() == n,
            cache_keys@.len() == n,
            p <= heads@.len(),
            batch_limit > 0,
            caps == capabilities,
            batch_limit_fits(caps, batch_limit, max_judgments),
            trace_ok(groups@, batch_limit, limits.max_request_bytes, batches, sources, res, st),
            forall|g: int| 0 <= g < n ==> batch_capable(caps, #[trigger] groups@[g].request),
            forall|g: int|
                0 <= g < n && #[trigger] st[g] == 2 ==> batch_compatible(
                    groups@[heads@[part_of@[g] as int] as int].identity@,
                    groups@[g].identity@,
                ),
            emitted_ok(groups@, res, st, output@),
            forall|p: int| 0 <= p < heads@.len() ==> #[trigger] heads@[p] < n,
            forall|g: int| 0 <= g < n ==> #[trigger] st[g] == 1 || st[g] == 2 || st[g] == 3,
            forall|g: int|
                0 <= g < n && #[trigger] st[g] == 2 ==> leaders@[g] is Some && p <= part_of@[g]
                    < heads@.len(),
            forall|g: int|
                0 <= g < n && #[trigger] leaders@[g] is Some && part_of@[g] >= p ==> st[g] == 2,
            forall|f: int|
                0 <= f < followers@.len() ==> (#[trigger] followers@[f]).0 < n && st[followers@[f].0 as int]
                    == 3,
            forall|f1: int, f2: int|
                0 <= f1 < f2 < followers@.len() ==> followers@[f1].0 < followers@[f2].0,
            forall|g: int|
                0 <= g < n && #[trigger] st[g] == 3 ==> exists|f: int|
                    0 <= f < followers@.len() && (#[trigger] followers@[f]).0 == g,
        decreases heads@.len() - p,
    {
        let mut current: Vec<usize> = Vec::new();
        let ghost mut est: usize = 0;
        let mut idx: usize = 0;
        while idx < n
            invariant
                max_judgments > 0 && limits.max_request_bytes > 0,
                n == groups@.len(),
                leaders@.len() == n,
                part_of@.len() == n,
                cache_keys@.len() == n,
                p < heads@.len(),
                idx <= n,
                batch_limit > 0,
                caps == capabilities,
                batch_limit_fits(caps, batch_limit, max_judgments),
                trace_ok(groups@, batch_limit, limits.max_request_bytes, batches, sources, res, st),
                forall|g: int| 0 <= g < n ==> batch_capable(caps, #[trigger] groups@[g].request),
                forall|g: int|
                    0 <= g < n && #[trigger] st[g] == 2 ==> batch_compatible(
                        groups@[heads@[part_of@[g] as int] as int].identity@,
                        groups@[g].identity@,
                    ),
                current@.len() <= batch_limit,
                current@.len() > 0 ==> est <= limits.max_request_bytes,
                emitted_ok(groups@, res, st, output@),
                forall|g: int| 0 <= g < n ==> #[trigger] st[g] == 1 || st[g] == 2 || st[g] == 3,
                forall|g: int|
                    0 <= g < n && #[trigger] st[g] == 2 ==> leaders@[g] is Some && p <= part_of@[g]
                        < heads@.len(),
                forall|g: int|
                    0 <= g < n && #[trigger] leaders@[g] is Some && part_of@[g] > p ==> st[g] == 2,
                forall|g: int|
                    idx <= g < n && #[trigger] leaders@[g] is Some && part_of@[g] == p ==> st[g]
                        == 2,
                forall|g: int|
                    0 <= g < idx && #[trigger] st[g] == 2 && part_of@[g] == p ==> listed(
                        current@,
                        g,
                    ),
                forall|b: int|
                    0 <= b < current@.len() ==> (#[trigger] current@[b]) < idx && st[current@[b] as int]
                        == 2 && part_of@[current@[b] as int] == p,
                forall|b1: int, b2: int|
                    0 <= b1 < b2 < current@.len() ==> current@[b1] < current@[b2],
                forall|f: int|
                    0 <= f < followers@.len() ==> (#[trigger] followers@[f]).0 < n && st[followers@[f].0 as int]
                        == 3,
                forall|g: int|
                    0 <= g < n && #[trigger] st[g] == 3 ==> exists|f: int|
                        0 <= f < followers@.len() && (#[trigger] followers@[f]).0 == g,
            decreases n - idx,
        {
            if leaders[idx].is_some() && part_of[idx] == p {
                let candidate = requests_for_groups(groups, current.as_slice(), Some(idx));
                let exceeds_count = candidate.len() > batch_limit;
                let estimate = provider.estimate_request_bytes(candidate.as_slice());
                let exceeds_bytes = estimate > limits.max_request_bytes;
                if exceeds_count || exceeds_bytes {
                    if current.len() == 0 {
                        let error = JudgmentError::configuration(
                            "one judgment exceeds duckjeu_max_request_bytes",
                        );
                        fail_leaders(runtime, &leaders, &error);
                        proof {
                            lemma_trace_facts(groups@, batch_limit, limits.max_request_bytes, batches, sources, res, st);
                        }
                        return (Err(error), Ghost(trace_of(caps, batch_limit, res, sources, batches)));
                    }
                    proof {
                        assert forall|b1: int, b2: int|
                            0 <= b1 < current@.len() && 0 <= b2 < current@.len() implies batch_compatible(
                            groups@[(#[trigger] current@[b1]) as int].identity@,
                            groups@[(#[trigger] current@[b2]) as int].identity@,
                        ) by {
                            assert(st[current@[b1] as int] == 2 && part_of@[current@[b1] as int] == p);
                            assert(st[current@[b2] as int] == 2 && part_of@[current@[b2] as int] == p);
                        }
                    }
                    let (outcome, sent) = dispatch(
                        groups,
                        &leaders,
                        &cache_keys,
                        provider,
                        runtime,
                        limits,
                        cache_policy,
                        &current,
                        Ghost(batch_limit),
                    );
                    let results = match outcome {
                        Ok(results) => results,
                        Err(error) => {
                            fail_leaders(runtime, &leaders, &error);
                            proof {
                                lemma_trace_facts(groups@, batch_limit, limits.max_request_bytes, batches, sources, res, st);
                            }
                            return (Err(error), Ghost(trace_of(caps, batch_limit, res, sources, batches)));
                        },
                    };
                    let ghost old_st = st;
                    let emitted = emit_batch(
                        &mut output,
                        groups,
                        &current,
                        &results,
                        Ghost(res),
                        Ghost(st),
                    );
                    proof {
                        let nb = SentBatch {
                            members: current@,
                            requests: sent@.0,
                            answers: sent@.1,
                            results: results@,
                            estimate: est,
                        };
                        lemma_trace_batch(
                            groups@,
                            batch_limit,
                            limits.max_request_bytes,
                            batches,
                            sources,
                            res,
                            old_st,
                            nb,
                            emitted@.0,
                            emitted@.1,
                        );
                        sources = batch_sources(sources, current@, batches.len() as int);
                        batches = batches.push(nb);
                        res = emitted@.0;
                        st = emitted@.1;
                        assert forall|g: int| 0 <= g < n implies #[trigger] st[g] == if listed(
                            current@,
                            g,
                        ) {
                            1
                        } else {
                            old_st[g]
                        } by {}
                    }
                    current.clear();
                    let singleton = requests_for_groups(groups, current.as_slice(), Some(idx));
                    let singleton_estimate = if singleton.len() > batch_limit {
                        0
                    } else {
                        provider.estimate_request_bytes(singleton.as_slice())
                    };
                    if singleton.len() > batch_limit || singleton_estimate > limits.max_request_bytes {
                        let error = JudgmentError::configuration(
                            "one judgment exceeds the configured batch limits",
                        );
                        fail_leaders(runtime, &leaders, &error);
                        proof {
                            lemma_trace_facts(groups@, batch_limit, limits.max_request_bytes, batches, sources, res, st);
                        }
                        return (Err(error), Ghost(trace_of(caps, batch_limit, res, sources, batches)));
                    }
                    current.push(idx);
                    proof {
                        assert(current@[0] == idx);
                        est = singleton_estimate;
                    }
                } else {
                    let ghost before = current@;
                    current.push(idx);
                    proof {
                        est = estimate;
                        assert forall|g: int|
                            0 <= g < idx + 1 && #[trigger] st[g] == 2 && part_of@[g] == p implies listed(
                            current@,
                            g,
                        ) by {
                            if g == idx {
                                assert(current@[before.len() as int] == idx);
                            } else {
                                let b = choose|b: int| 0 <= b < before.len() && before[b] == g;
                                assert(current@[b] == g);
                            }
                        }
                    }
                }
            }
            idx = idx + 1;
        }
        if current.len() > 0 {
            proof {
                assert forall|b1: int, b2: int|
                    0 <= b1 < current@.len() && 0 <= b2 < current@.len() implies batch_compatible(
                    groups@[(#[trigger] current@[b1]) as int].identity@,
                    groups@[(#[trigger] current@[b2]) as int].identity@,
                ) by {
                    assert(st[current@[b1] as int] == 2 && part_of@[current@[b1] as int] == p);
                    assert(st[current@[b2] as int] == 2 && part_of@[current@[b2] as int] == p);
                }
            }
            let (outcome, sent) = dispatch(
                groups,
                &leaders,
                &cache_keys,
                provider,
                runtime,
                limits,
                cache_policy,
                &current,
                Ghost(batch_limit),
            );
            let results = match outcome {
                Ok(results) => results,
                Err(error) => {
                    fail_leaders(runtime, &leaders, &error);
                    proof {
                        lemma_trace_facts(groups@, batch_limit, limits.max_request_bytes, batches, sources, res, st);
                    }
                    return (Err(error), Ghost(trace_of(caps, batch_limit, res, sources, batches)));
                },
            };
            let ghost old_st = st;
            let emitted = emit_batch(&mut output, groups, &current, &results, Ghost(res), Ghost(st));
            proof {
                let nb = SentBatch {
                    members: current@,
                    requests: sent@.0,
                    answers: sent@.1,
                    results: results@,
                    estimate: est,
                };
                lemma_trace_batch(
                    groups@,
                    batch_limit,
                    limits.max_request_bytes,
                    batches,
                    sources,
                    res,
                    old_st,
                    nb,
                    emitted@.0,
                    emitted@.1,
                );
                sources = batch_sources(sources, current@, batches.len() as int);
                batches = batches.push(nb);
                res = emitted@.0;
                st = emitted@.1;
                assert forall|g: int| 0 <= g < n implies #[trigger] st[g] == if listed(current@, g) {
                    1
                } else {
                    old_st[g]
                } by {}
            }
        }
        p = p + 1;
    }
    let mut f: usize = 0;
    while f < followers.len()
        invariant
            max_judgments > 0 && limits.max_request_bytes > 0,
            n == groups@.len(),
            f <= followers@.len(),
            emitted_ok(groups@, res, st, output@),
            caps == capabilities,
            batch_limit_fits(caps, batch_limit, max_judgments),
            trace_ok(groups@, batch_limit, limits.max_request_bytes, batches, sources, res, st),
            forall|g: int| 0 <= g < n ==> batch_capable(caps, #[trigger] groups@[g].request),
            forall|g: int| 0 <= g < n ==> #[trigger] st[g] == 1 || st[g] == 3,
            forall|q: int|
                f <= q < followers@.len() ==> (#[trigger] followers@[q]).0 < n && st[followers@[q].0 as int]
                    == 3,
            forall|f1: int, f2: int|
                0 <= f1 < f2 < followers@.len() ==> followers@[f1].0 < followers@[f2].0,
            forall|g: int|
                0 <= g < n && #[trigger] st[g] == 3 ==> exists|q: int|
                    f <= q < followers@.len() && (#[trigger] followers@[q]).0 == g,
        decreases followers@.len() - f,
    {
        let index = followers[f].0;
        let result = match runtime.wait_entry(&followers[f].1, &followers[f].2) {
            Ok(result) => result,
            Err(error) => {
                proof {
                    lemma_trace_facts(groups@, batch_limit, limits.max_request_bytes, batches, sources, res, st);
                }
                return (Err(error), Ghost(trace_of(caps, batch_limit, res, sources, batches)));
            },
        };
        if let Err(error) = validate_judgment_result(&groups[index].request, &result) {
            proof {
                lemma_trace_facts(groups@, batch_limit, limits.max_request_bytes, batches, sources, res, st);
            }
            return (Err(error), Ghost(trace_of(caps, batch_limit, res, sources, batches)));
        }
        let ghost before = output@;
        push_labelled(&mut output, &groups[index].targets, &result);
        proof {
            lemma_emit(groups@, res, st, before, index as int, result);
            lemma_trace_single(
                groups@,
                batch_limit,
                limits.max_request_bytes,
                batches,
                sources,
                res,
                st,
                index as int,
                GroupSource::Shared(result),
                result,
            );
            sources = sources.update(index as int, GroupSource::Shared(result));
            res = res.update(index as int, result);
            st = st.update(index as int, 1);
            assert forall|g: int| 0 <= g < n && #[trigger] st[g] == 3 implies exists|q: int|
                f + 1 <= q < followers@.len() && (#[trigger] followers@[q]).0 == g by {
                let q = choose|q: int| f <= q < followers@.len() && (#[trigger] followers@[q]).0 == g;
                assert(q != f);
            }
        }
        f = f + 1;
    }
    proof {
        assert forall|g: int| 0 <= g < n implies st[g] == 1 by {
            if st[g] == 3 {
                let q = choose|q: int| f <= q < followers@.len() && (#[trigger] followers@[q]).0 == g;
            }
        }
        lemma_all_emitted(groups@, res, st, output@);
        lemma_trace_facts(groups@, batch_limit, limits.max_request_bytes, batches, sources, res, st);
        assert forall|g: int| 0 <= g < groups@.len() implies source_ok(
            groups@,
            batches,
            g,
            sources[g],
            res[g],
        ) by {
            assert(st[g] == 1);
        }
    }
    let done: Result<Vec<(RowTarget, JudgmentResult)>, JudgmentError> = Ok(output);
    assert(done->Ok_0@ == output@);
    (done, Ghost(trace_of(caps, batch_limit, res, sources, batches)))
}


pub(crate) proof fn lemma_work_targets_contains(work: Seq<JudgmentWork>, k: int)
    requires
        0 <= k < work.len(),
    ensures
        work_targets(work, work[k].identity@).contains(work[k].target),
    decreases work.len(),
{
    let id = work[k].identity@;
    let d = work.drop_last();
    if k == work.len() - 1 {
        let t = work_targets(work, id);
        assert(t == work_targets(d, id).push(work[k].target));
        assert(t[t.len() - 1] == work[k].target);
    } else {
        assert(d[k] == work[k]);
        lemma_work_targets_contains(d, k);
        let inner = work_targets(d, id);
        let j = choose|j: int| 0 <= j < inner.len() && inner[j] == work[k].target;
        if work.last().identity@ == id {
            assert(work_targets(work, id) == inner.push(work.last().target));
            assert(work_targets(work, id)[j] == work[k].target);
        } else {
            assert(work_targets(work, id) == inner);
        }
    }
}

proof fn lemma_expansion_contains(groups: Seq<JudgmentGroup>, results: Seq<JudgmentResult>, g: int, j: int)
    requires
        results.len() >= groups.len(),
        0 <= g < groups.len(),
        0 <= j < groups[g].targets@.len(),
    ensures
        expansion(groups, results).contains((groups[g].targets@[j], results[g])),
    decreases groups.len(),
{
    let d = groups.drop_last();
    let e = expansion(groups, results);
    let front = expansion(d, results);
    let back = labelled(groups.last().targets@, results[groups.len() - 1]);
    assert(e == front + back);
    if g == groups.len() - 1 {
        assert(e[front.len() + j] == back[j]);
    } else {
        assert(d[g] == groups[g]);
        lemma_expansion_contains(d, results, g, j);
        let k = choose|k: int| 0 <= k < front.len() && front[k] == (groups[g].targets@[j], results[g]);
        assert(e[k] == front[k]);
    }
}

proof fn lemma_expansion_from_group(groups: Seq<JudgmentGroup>, results: Seq<JudgmentResult>, k: int)
    requires
        results.len() >= groups.len(),
        0 <= k < expansion(groups, results).len(),
    ensures
        from_group(groups, results, expansion(groups, results)[k]),
    decreases groups.len(),
{
    let d = groups.drop_last();
    let e = expansion(groups, results);
    let front = expansion(d, results);
    let last = groups.len() - 1;
    let back = labelled(groups[last].targets@, results[last]);
    assert(e == front + back);
    if k < front.len() {
        lemma_expansion_from_group(d, results, k);
        let g = choose|g: int|
            0 <= g < d.len() && d[g].targets@.contains(front[k].0) && front[k].1 == results[g];
        assert(d[g] == groups[g]);
        assert(e[k] == front[k]);
    } else {
        let j = k - front.len();
        assert(e[k] == back[j]);
        assert(groups[last].targets@.contains(groups[last].targets@[j]));
    }
}

/// The in-order expansion of answered groups gives every target its group's result and
/// nothing else.
pub proof fn lemma_expansion_covers(groups: Seq<JudgmentGroup>, results: Seq<JudgmentResult>)
    requires
        results.len() == groups.len(),
        answered(groups, results),
    ensures
        covers(groups, results, expansion(groups, results)),
{
    let e = expansion(groups, results);
    assert forall|k: int| 0 <= k < e.len() implies from_group(groups, results, #[trigger] e[k]) by {
        lemma_expansion_from_group(groups, results, k);
    }
    assert forall|g: int, j: int|
        0 <= g < groups.len() && 0 <= j < groups[g].targets@.len() implies e.contains(
        (#[trigger] groups[g].targets@[j], results[g]),
    ) by {
        lemma_expansion_contains(groups, results, g, j);
    }
}

/// Deduplication keeps the row mapping: when the judgments of a chunk are grouped by identity
/// and the groups are executed, every input row's target is paired with the result of the
/// group holding its judgment, and that result answers the group's request.
pub proof fn law_every_row_gets_its_judgment(
    work: Seq<JudgmentWork>,
    groups: Seq<JudgmentGroup>,
    results: Seq<JudgmentResult>,
    out: Seq<(RowTarget, JudgmentResult)>,
)
    requires
        is_grouping(work, groups),
        covers(groups, results, out),
    ensures
        forall|k: int|
            0 <= k < work.len() ==> exists|g: int|
                0 <= g < groups.len() && groups[g].identity@ == (#[trigger] work[k]).identity@
                    && out.contains((work[k].target, results[g])) && result_answers(
                    groups[g].request@,
                    results[g],
                ),
{
    assert forall|k: int| 0 <= k < work.len() implies exists|g: int|
        0 <= g < groups.len() && groups[g].identity@ == (#[trigger] work[k]).identity@
            && out.contains((work[k].target, results[g])) && result_answers(
            groups[g].request@,
            results[g],
        ) by {
        let g = choose|g: int| 0 <= g < groups.len() && groups[g].identity@ == work[k].identity@;
        lemma_work_targets_contains(work, k);
        let targets = groups[g].targets@;
        assert(targets == work_targets(work, groups[g].identity@));
        let j = choose|j: int| 0 <= j < targets.len() && targets[j] == work[k].target;
        assert(out.contains((groups[g].targets@[j], results[g])));
    }
}


/// Every target of `work_targets(work, id)` is the target of a work item asking `id`.
pub(crate) proof fn lemma_work_targets_members(work: Seq<JudgmentWork>, id: IdentityView)
    ensures
        forall|j: int|
            0 <= j < work_targets(work, id).len() ==> exists|k: int|
                0 <= k < work.len() && work[k].target == #[trigger] work_targets(work, id)[j]
                    && work[k].identity@ == id,
    decreases work.len(),
{
    if work.len() > 0 {
        let d = work.drop_last();
        lemma_work_targets_members(d, id);
        let inner = work_targets(d, id);
        assert forall|j: int| 0 <= j < work_targets(work, id).len() implies exists|k: int|
            0 <= k < work.len() && work[k].target == #[trigger] work_targets(work, id)[j]
                && work[k].identity@ == id by {
            if work.last().identity@ == id && j == inner.len() {
                assert(work_targets(work, id)[j] == work.last().target);
                assert(work[work.len() - 1] == work.last());
            } else {
                assert(work_targets(work, id)[j] == inner[j]);
                let k = choose|k: int| 0 <= k < d.len() && d[k].target == inner[j] && d[k].identity@ == id;
                assert(work[k] == d[k]);
            }
        }
    }
}

} // verus!
