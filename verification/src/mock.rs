//! Deterministic offline provider: no network, for demos and tests.
//!
//! It goes through the same request-to-result validation path as the service adapters.

use vstd::prelude::*;
use vstd::arithmetic::power2::{pow2, lemma2_to64, lemma_pow2_unfold, lemma_pow2_pos};
use vstd::utf8::encode_utf8;

use crate::judgment::{
    result_answers,
    validate_label, validate_probability, ErrorKind, JudgmentError, JudgmentRequest,
    JudgmentResult, QuestionKind, RequestView, ONE_BITS,
};
use crate::provider::{
    validate_batch_result, CapabilityStatus, Provider, ProviderAnswer, ProviderBatchResult,
    ProviderCapabilities, ProviderMetadata,
};

verus! {

pub const MOCK_EFFECTIVE_MODEL: &'static str = "duckjeu-deterministic-mock-v1";

pub const FNV_OFFSET_BASIS: u64 = 0xcbf2_9ce4_8422_2325;

pub const FNV_PRIME: u64 = 0x0000_0100_0000_01b3;

/// FNV-1a, 64 bits, continued from `seed`. For deterministic derivation only, not security.
pub open spec fn fnv1a_spec(bytes: Seq<u8>, seed: u64) -> u64
    decreases bytes.len(),
{
    if bytes.len() == 0 {
        seed
    } else {
        (fnv1a_spec(bytes.drop_last(), seed) ^ (bytes.last() as u64)).wrapping_mul(FNV_PRIME)
    }
}

fn fnv1a(bytes: &[u8], seed: u64) -> (r: u64)
    ensures
        r == fnv1a_spec(bytes@, seed),
{
    let mut hash = seed;
    let mut i: usize = 0;
    while i < bytes.len()
        invariant
            i <= bytes@.len(),
            hash == fnv1a_spec(bytes@.subrange(0, i as int), seed),
        decreases bytes@.len() - i,
    {
        assert(bytes@.subrange(0, i + 1).drop_last() =~= bytes@.subrange(0, i as int));
        hash = (hash ^ (bytes[i] as u64)).wrapping_mul(FNV_PRIME);
        i = i + 1;
    }
    assert(bytes@.subrange(0, bytes@.len() as int) =~= bytes@);
    hash
}

/// The bytes of `noul`.
pub open spec fn noul_tag() -> Seq<u8> {
    seq![110u8, 111u8, 117u8, 108u8]
}

/// The bytes of `choice`.
pub open spec fn choice_tag() -> Seq<u8> {
    seq![99u8, 104u8, 111u8, 105u8, 99u8, 101u8]
}

/// Each label, after a unit separator byte.
pub open spec fn labels_hash(labels: Seq<Seq<char>>, seed: u64) -> u64
    decreases labels.len(),
{
    if labels.len() == 0 {
        seed
    } else {
        fnv1a_spec(
            encode_utf8(labels.last()),
            fnv1a_spec(seq![0x1fu8], labels_hash(labels.drop_last(), seed)),
        )
    }
}

/// The hash of the canonical state and the question content.
pub open spec fn request_hash(r: RequestView) -> u64 {
    let h = fnv1a_spec(r.state_bytes, FNV_OFFSET_BASIS);
    match r.kind {
        QuestionKind::Noul => {
            let h1 = fnv1a_spec(noul_tag(), h);
            match r.criterion {
                Some(c) => fnv1a_spec(encode_utf8(c), h1),
                None => h1,
            }
        },
        QuestionKind::Choice => {
            let h1 = fnv1a_spec(choice_tag(), h);
            let h2 = match r.question {
                Some(q) => fnv1a_spec(encode_utf8(q), h1),
                None => h1,
            };
            labels_hash(r.choices, h2)
        },
    }
}

/// Derived deterministically from the canonical state and the question content.
pub fn derive_hash(request: &JudgmentRequest) -> (r: u64)
    ensures
        r == request_hash(request@),
{
    let mut hash = fnv1a(request.state.canonical_bytes(), FNV_OFFSET_BASIS);
    match request.kind {
        QuestionKind::Noul => {
            let tag: Vec<u8> = vec![110u8, 111u8, 117u8, 108u8];
            assert(tag@ =~= noul_tag());
            hash = fnv1a(tag.as_slice(), hash);
            if let Some(criterion) = &request.criterion {
                hash = fnv1a(criterion.as_str().as_bytes(), hash);
            }
        },
        QuestionKind::Choice => {
            let tag: Vec<u8> = vec![99u8, 104u8, 111u8, 105u8, 99u8, 101u8];
            assert(tag@ =~= choice_tag());
            hash = fnv1a(tag.as_slice(), hash);
            if let Some(question) = &request.question {
                hash = fnv1a(question.as_str().as_bytes(), hash);
            }
            let ghost start = hash;
            let separator: Vec<u8> = vec![0x1fu8];
            assert(separator@ =~= seq![0x1fu8]);
            let mut i: usize = 0;
            while i < request.choices.len()
                invariant
                    i <= request.choices@.len(),
                    separator@ == seq![0x1fu8],
                    hash == labels_hash(request.choices.deep_view().subrange(0, i as int), start),
                decreases request.choices@.len() - i,
            {
                let ghost labels = request.choices.deep_view();
                assert(labels.subrange(0, i + 1).drop_last() =~= labels.subrange(0, i as int));
                assert(labels[i as int] == request.choices@[i as int]@);
                hash = fnv1a(separator.as_slice(), hash);
                hash = fnv1a(request.choices[i].as_str().as_bytes(), hash);
                i = i + 1;
            }
            assert(request.choices.deep_view().subrange(0, request.choices@.len() as int)
                =~= request.choices.deep_view());
        },
    }
    hash
}

pub open spec fn abs(x: int) -> int {
    if x < 0 {
        -x
    } else {
        x
    }
}

/// `bits` is the binary64 nearest to `k / d` (ties to even), for `0 <= k <= d`: zero for
/// zero, otherwise a normal number `q * 2^-s` with a 53-bit significand `q`, within half a
/// unit in the last place, and at the bottom of a binade no nearer to the finer binade below.
pub open spec fn nearest_ratio_bits(bits: u64, k: int, d: int) -> bool {
    if k == 0 {
        bits == 0
    } else {
        let e = bits as int / pow2(52) as int;
        let q = pow2(52) + bits as int % pow2(52) as int;
        let s = 1075 - e;
        &&& 1 <= e <= 1023
        &&& s >= 52
        &&& 2 * abs(q * d - k * pow2(s as nat)) <= d
        &&& (2 * abs(q * d - k * pow2(s as nat)) == d ==> q % 2 == 0)
        &&& (q == pow2(52) ==> 4 * k * pow2(s as nat) >= (pow2(54) - 1) * d)
    }
}

proof fn lemma_pow2_facts()
    ensures
        pow2(20) == 0x10_0000,
        pow2(52) == 0x10_0000_0000_0000,
        pow2(72) == pow2(52) * 0x10_0000,
        pow2(53) == 2 * pow2(52),
        pow2(54) == 4 * pow2(52),
{
    lemma2_to64();
    vstd::arithmetic::power2::lemma_pow2_adds(32, 20);
    vstd::arithmetic::power2::lemma_pow2_adds(52, 20);
    lemma_pow2_unfold(53);
    lemma_pow2_unfold(54);
}

/// The rounding step: `num = q * d + rem` rounded to nearest, ties to even, then brought back
/// to 53 bits.
proof fn lemma_rounding(
    k: int,
    d: int,
    num: int,
    q: int,
    rem: int,
    s: int,
    q1: int,
    q2: int,
    s2: int,
    p52: int,
    ps: int,
    ps2: int,
)
    requires
        d > 0,
        p52 > 0,
        num == k * ps,
        q * d + rem == num,
        0 <= rem < d,
        p52 <= q < 2 * p52,
        q1 == if 2 * rem > d || (2 * rem == d && q % 2 == 1) {
            q + 1
        } else {
            q
        },
        q1 == 2 * p52 ==> q2 == p52 && s2 == s - 1 && ps == 2 * ps2,
        q1 != 2 * p52 ==> q2 == q1 && s2 == s && ps2 == ps,
    ensures
        2 * abs(q2 * d - k * ps2) <= d,
        2 * abs(q2 * d - k * ps2) == d ==> q2 % 2 == 0,
        q2 == p52 ==> 4 * k * ps2 >= (4 * p52 - 1) * d,
        p52 <= q2 < 2 * p52,
{
    if q1 == 2 * p52 {
        assert(q == 2 * p52 - 1);
        assert(q1 * d - num == d - rem) by (nonlinear_arith)
            requires
                q1 == q + 1,
                q * d + rem == num,
        ;
        assert(2 * (q2 * d - k * ps2) == q1 * d - num) by (nonlinear_arith)
            requires
                q2 == p52,
                q1 == 2 * p52,
                ps == 2 * ps2,
                num == k * ps,
        ;
        assert(4 * k * ps2 == 2 * num) by (nonlinear_arith)
            requires
                ps == 2 * ps2,
                num == k * ps,
        ;
        assert(2 * num >= (4 * p52 - 1) * d) by (nonlinear_arith)
            requires
                num == q * d + rem,
                q == 2 * p52 - 1,
                2 * rem >= d,
        ;
    } else {
        assert(q2 * d - k * ps2 == q1 * d - num);
        if q1 == q + 1 {
            assert(q1 * d - num == d - rem) by (nonlinear_arith)
                requires
                    q1 == q + 1,
                    q * d + rem == num,
            ;
        } else {
            assert(q1 * d - num == -rem);
            if q2 == p52 {
                assert(4 * k * ps2 == 4 * num) by (nonlinear_arith)
                    requires
                        ps2 == ps,
                        num == k * ps,
                ;
                assert(num >= p52 * d) by (nonlinear_arith)
                    requires
                        q * d + rem == num,
                        q >= p52,
                        rem >= 0,
                        d > 0,
                ;
                assert(4 * num >= (4 * p52 - 1) * d) by (nonlinear_arith)
                    requires
                        num >= p52 * d,
                        d > 0,
                ;
            }
        }
    }
}

/// The binary64 nearest to `k / 1_000_000`.
pub fn millionths_to_bits(k: u64) -> (r: u64)
    requires
        k <= 1_000_000,
    ensures
        nearest_ratio_bits(r, k as int, 1_000_000),
        r <= ONE_BITS,
{
    if k == 0 {
        return 0;
    }
    proof {
        lemma_pow2_facts();
    }
    let two52: u128 = 0x10_0000_0000_0000;
    let d: u128 = 1_000_000;
    let low: u128 = two52 * d;
    let mut num: u128 = (k as u128) * two52;
    let mut s: u128 = 52;
    while num < low
        invariant
            two52 == pow2(52),
            two52 == 0x10_0000_0000_0000,
            pow2(72) == pow2(52) * 0x10_0000,
            d == 1_000_000,
            low == two52 * d,
            1 <= k <= 1_000_000,
            52 <= s <= 72,
            num > 0,
            num == k * pow2(s as nat),
            num < 2 * low,
        decreases 72 - s,
    {
        proof {
            lemma_pow2_unfold((s + 1) as nat);
            if s == 72 {
                assert(k * pow2(72) >= low) by (nonlinear_arith)
                    requires
                        k >= 1,
                        pow2(72) == pow2(52) * 0x10_0000,
                        low == pow2(52) * 1_000_000,
                        pow2(52) > 0,
                ;
            }
        }
        proof {
            assert(2 * num == k * pow2((s + 1) as nat)) by (nonlinear_arith)
                requires
                    num == k * pow2(s as nat),
                    pow2((s + 1) as nat) == 2 * pow2(s as nat),
            ;
        }
        num = num * 2;
        s = s + 1;
    }
    proof {
        if s == 52 {
            assert(k == 1_000_000) by (nonlinear_arith)
                requires
                    num == k * pow2(52),
                    num >= low,
                    low == pow2(52) * 1_000_000,
                    pow2(52) > 0,
                    k <= 1_000_000,
            ;
        }
    }
    let mut q: u128 = num / d;
    let rem: u128 = num % d;
    assert(q * d + rem == num && rem < d) by (nonlinear_arith)
        requires
            q == num / d,
            rem == num % d,
            d > 0,
    ;
    assert(two52 <= q < 2 * two52) by (nonlinear_arith)
        requires
            q * d + rem == num,
            rem < d,
            low <= num < 2 * low,
            low == two52 * d,
            d > 0,
    ;
    let ghost q0 = q;
    let ghost s0 = s;
    if 2 * rem > d || (2 * rem == d && q % 2 == 1) {
        q = q + 1;
    }
    let ghost q1 = q;
    if q == 2 * two52 {
        q = two52;
        s = s - 1;
    }
    proof {
        if s0 == 52 {
            assert(num == two52 * d);
            assert(q0 == two52 && rem == 0) by (nonlinear_arith)
                requires
                    q0 * d + rem == num,
                    num == two52 * d,
                    0 <= rem < d,
                    d > 0,
            ;
        }
        if q1 == 2 * two52 {
            lemma_pow2_unfold(s0 as nat);
        }
        lemma_rounding(
            k as int,
            d as int,
            num as int,
            q0 as int,
            rem as int,
            s0 as int,
            q1 as int,
            q as int,
            s as int,
            two52 as int,
            pow2(s0 as nat) as int,
            pow2(s as nat) as int,
        );
    }
    let exponent: u64 = (1075 - s) as u64;
    proof {
        if s == 52 {
            assert(q == two52);
        }
    }
    let r: u64 = exponent * 0x10_0000_0000_0000 + (q - two52) as u64;
    proof {
        assert(r as int / pow2(52) as int == exponent && r as int % pow2(52) as int == q - two52)
            by (nonlinear_arith)
            requires
                r == exponent * pow2(52) + (q - two52),
                0 <= q - two52 < pow2(52),
                pow2(52) > 0,
        ;
    }
    r
}


/// The mock refuses a choice request without labels.
pub open spec fn mock_refuses(request: RequestView) -> bool {
    request.kind == QuestionKind::Choice && request.choices.len() == 0
}

/// The mock's answer to `request`: the probability nearest to `h mod 1001` thousandths, or
/// the label at position `h` modulo the label count, `h` being the request's hash.
pub open spec fn mock_answer(request: RequestView, result: JudgmentResult) -> bool {
    &&& result_answers(request, result)
    &&& match (request.kind, result) {
        (QuestionKind::Noul, JudgmentResult::Noul(p)) => nearest_ratio_bits(
            p,
            (request_hash(request) % 1001) as int * 1000,
            1_000_000,
        ),
        (QuestionKind::Choice, JudgmentResult::Choice(label)) => request.choices.len() > 0
            && label@ == request.choices[(request_hash(request) as int) % (
        request.choices.len() as int)],
        _ => false,
    }
}

proof fn lemma_mock_answers_valid(requests: Seq<JudgmentRequest>, answers: Seq<ProviderAnswer>)
    requires
        crate::provider::keys_distinct(crate::provider::request_keys(requests)),
        answers.len() == requests.len(),
        forall|k: int|
            0 <= k < requests.len() ==> (#[trigger] answers[k]).request_key@ == requests[k].request_key@
                && result_answers(requests[k]@, answers[k].result),
    ensures
        crate::provider::batch_valid(requests, answers),
{
    let keys = crate::provider::request_keys(requests);
    assert forall|i: int| 0 <= i < answers.len() implies crate::provider::answer_acceptable(
        requests,
        answers,
        i,
    ) by {
        let key = answers[i].request_key@;
        assert(keys[i] == key);
        assert(requests[i].request_key@ == key);
        assert(crate::provider::has_request_key(requests, key));
        assert forall|m: int| 0 <= m < i implies requests[m].request_key@ != key by {
            assert(keys[m] == requests[m].request_key@);
            assert(keys[m] != keys[i]);
        }
        let f = crate::provider::first_request_with_key(requests, key);
        assert(0 <= f < requests.len() && requests[f].request_key@ == key && forall|m: int|
            0 <= m < f ==> requests[m].request_key@ != key);
        if f != i {
            assert(keys[f] == key);
            if f < i {
                assert(keys[f] != keys[i]);
            } else {
                assert(requests[i].request_key@ != key);
            }
        }
        let earlier = crate::provider::answer_keys(answers).subrange(0, i);
        if earlier.contains(key) {
            let j = choose|j: int| 0 <= j < earlier.len() && earlier[j] == key;
            assert(answers[j].request_key@ == key);
            assert(keys[j] == key);
            assert(keys[j] != keys[i]);
        }
    }
}

/// The deterministic offline provider.
#[derive(Debug, Default, Clone, Copy)]
pub struct MockProvider;

impl Provider for MockProvider {
    fn capabilities(&self) -> (r: ProviderCapabilities)
        ensures
            r.protocol_version@ == "duckjeu-mock/1"@,
            r.noul == CapabilityStatus::Verified,
            r.choice == CapabilityStatus::Verified,
            r.multi_state_batch == CapabilityStatus::Verified,
            r.max_batch_judgments is None,
            r.max_choices is None,
    {
        ProviderCapabilities {
            protocol_version: String::from_str("duckjeu-mock/1"),
            noul: CapabilityStatus::Verified,
            choice: CapabilityStatus::Verified,
            multi_state_batch: CapabilityStatus::Verified,
            max_batch_judgments: None,
            max_choices: None,
        }
    }

    fn judge(&self, request: &JudgmentRequest) -> (r: Result<JudgmentResult, JudgmentError>)
        ensures
            r is Err <==> mock_refuses(request@),
            r matches Ok(result) ==> mock_answer(request@, result),
            r matches Err(e) ==> e.error_kind() == ErrorKind::InvalidInput && e.error_text()
                == "choices must contain at least two labels"@,
    {
        let hash = derive_hash(request);
        match request.kind {
            QuestionKind::Noul => {
                let bits = millionths_to_bits((hash % 1001) * 1000);
                let p = validate_probability(bits)?;
                Ok(JudgmentResult::Noul(p))
            },
            QuestionKind::Choice => {
                let n = request.choices.len();
                if n == 0 {
                    return Err(JudgmentError::invalid_input("choices must contain at least two labels"));
                }
                let index = (hash % (n as u64)) as usize;
                let label = validate_label(request.choices[index].as_str(), request.choices.as_slice());
                proof {
                    assert(request.choices.deep_view()[index as int] == request.choices@[index as int]@);
                }
                Ok(JudgmentResult::Choice(label?))
            },
        }
    }

    fn judge_with_metadata(&self, request: &JudgmentRequest) -> (r: Result<
        ProviderBatchResult,
        JudgmentError,
    >)
        ensures
            r is Err <==> mock_refuses(request@),
            r matches Ok(response) ==> response.answers@.len() == 1
                && response.answers@[0].request_key@ == request.request_key@ && mock_answer(
                request@,
                response.answers@[0].result,
            ) && response.metadata.effective_model.deep_view() == Some(MOCK_EFFECTIVE_MODEL@),
    {
        let result = self.judge(request)?;
        let mut answers: Vec<ProviderAnswer> = Vec::new();
        answers.push(ProviderAnswer { request_key: request.request_key.clone(), result });
        let mut metadata = ProviderMetadata::empty();
        metadata.effective_model = Some(String::from_str(MOCK_EFFECTIVE_MODEL));
        Ok(ProviderBatchResult { answers, metadata })
    }

    fn cache_model_identity(&self, requested_model: &str) -> (r: Option<String>)
        ensures
            r matches Some(m) && m@ == MOCK_EFFECTIVE_MODEL@,
    {
        Some(String::from_str(MOCK_EFFECTIVE_MODEL))
    }

    fn judge_many(&self, requests: &[JudgmentRequest]) -> (r: Result<
        ProviderBatchResult,
        JudgmentError,
    >)
        ensures
            r is Ok <==> (forall|i: int| 0 <= i < requests@.len() ==> !mock_refuses(
                #[trigger] requests@[i]@,
            )) && crate::provider::keys_distinct(crate::provider::request_keys(requests@)),
            r matches Ok(response) ==> batch_valid_response(requests@, response) && forall|i: int|
                0 <= i < requests@.len() ==> (#[trigger] response.answers@[i]).request_key@
                    == requests@[i].request_key@ && mock_answer(
                    requests@[i]@,
                    response.answers@[i].result,
                ),
    {
        let mut answers: Vec<ProviderAnswer> = Vec::new();
        let mut i: usize = 0;
        while i < requests.len()
            invariant
                i <= requests@.len(),
                answers@.len() == i,
                forall|k: int| 0 <= k < i ==> !mock_refuses(#[trigger] requests@[k]@),
                forall|k: int|
                    0 <= k < i ==> (#[trigger] answers@[k]).request_key@ == requests@[k].request_key@
                        && mock_answer(requests@[k]@, answers@[k].result),
            decreases requests@.len() - i,
        {
            let result = self.judge(&requests[i])?;
            answers.push(ProviderAnswer { request_key: requests[i].request_key.clone(), result });
            i = i + 1;
        }
        let mut metadata = ProviderMetadata::empty();
        metadata.effective_model = Some(String::from_str(MOCK_EFFECTIVE_MODEL));
        let response = ProviderBatchResult { answers, metadata };
        proof {
            if crate::provider::keys_distinct(crate::provider::request_keys(requests@)) {
                lemma_mock_answers_valid(requests@, response.answers@);
            }
        }
        validate_batch_result(requests, &response)?;
        Ok(response)
    }
}

/// A mock batch response is valid for its requests and reports the mock model.
pub open spec fn batch_valid_response(requests: Seq<JudgmentRequest>, response: ProviderBatchResult) -> bool {
    &&& crate::provider::batch_valid(requests, response.answers@)
    &&& response.metadata.effective_model.deep_view() == Some(MOCK_EFFECTIVE_MODEL@)
}

} // verus!
